//! What the shared mempool asks of the pool of pending transactions: the
//! interface of the pool, and the model of its log of ready transactions that
//! the broadcast cursors point into.

use crate::types::SignedTransaction;
use vstd::prelude::*;

verus! {

/// Whether an admitted transaction may be broadcast.
#[derive(Clone, Copy, Debug, PartialEq, Eq, Structural)]
pub enum TimelineState {
    /// The transaction is ready for broadcast and has a timeline id.
    Ready,
    /// The transaction is not ready for broadcast yet: its sequence number
    /// lies in the future.
    NotReady,
    /// The transaction is never broadcast: it came from a peer of the same
    /// validator network.
    NonQualified,
}

/// How the pool answered an admission.
#[derive(Clone, Copy, Debug, PartialEq, Eq, Structural)]
pub enum MempoolAddTransactionStatusCode {
    /// The transaction was admitted.
    Valid,
    /// The sender's balance does not cover the transaction.
    InsufficientBalance,
    /// The sequence number is older than the sender's.
    InvalidSeqNumber,
    /// The pool has no room left.
    MempoolIsFull,
    /// The transaction may not replace the one already held.
    InvalidUpdate,
}

/// The answer of the pool to an admission, with a message for the sender.
#[derive(Clone, Debug, PartialEq, Eq)]
pub struct MempoolAddTransactionStatus {
    pub code: MempoolAddTransactionStatusCode,
    pub message: String,
}

impl MempoolAddTransactionStatus {
    /// An answer with the given code and message.
    pub fn new(code: MempoolAddTransactionStatusCode, message: String) -> (status: Self)
        ensures
            status.code == code,
            status.message == message,
    {
        Self { code, message }
    }
}

/// A ready transaction with the timeline id that the pool gave it.
#[derive(Clone, Copy, Debug, PartialEq, Eq, Structural)]
pub struct TimelineEntry {
    pub timeline_id: u64,
    pub txn: SignedTransaction,
}

/// Two transactions are the same to the pool when they have the same sender
/// and the same sequence number.
pub open spec fn same_transaction(a: SignedTransaction, b: SignedTransaction) -> bool {
    a.sender == b.sender && a.sequence_number == b.sequence_number
}

/// The timeline ids of the log grow from each entry to the next.
pub open spec fn ascending(log: Seq<TimelineEntry>) -> bool {
    forall|i: int, j: int|
        0 <= i < j < log.len() ==> (#[trigger] log[i]).timeline_id < (#[trigger] log[j]).timeline_id
}

/// The entries of the log whose timeline id is greater than `cursor`, in the
/// order of the log.
pub open spec fn after_cursor(log: Seq<TimelineEntry>, cursor: u64) -> Seq<TimelineEntry>
    decreases log.len(),
{
    if log.len() == 0 {
        Seq::empty()
    } else if log.last().timeline_id > cursor {
        after_cursor(log.drop_last(), cursor).push(log.last())
    } else {
        after_cursor(log.drop_last(), cursor)
    }
}

/// The batch that a read of the log at `cursor` for at most `max_count`
/// transactions hands out: the first `max_count` entries after the cursor, or
/// all of them where they are fewer.
pub open spec fn batch(log: Seq<TimelineEntry>, cursor: u64, max_count: nat) -> Seq<TimelineEntry> {
    if after_cursor(log, cursor).len() <= max_count {
        after_cursor(log, cursor)
    } else {
        after_cursor(log, cursor).take(max_count as int)
    }
}

/// The transactions of the entries, in their order.
pub open spec fn transactions_of(entries: Seq<TimelineEntry>) -> Seq<SignedTransaction> {
    Seq::new(entries.len(), |i: int| entries[i].txn)
}

/// A pool of pending transactions, as the shared mempool and the front door
/// of the node use it.
pub trait MempoolTrait {
    /// What holds of the pool between any two calls. A pool says here what
    /// it keeps in order; one that has nothing to say holds always.
    open spec fn valid(&self) -> bool {
        true
    }

    /// Admits a transaction and says how the admission went. `gas_amount` is
    /// the gas that the transaction may spend, `db_sequence_number` and
    /// `balance` are the sender's sequence number and balance in storage, and
    /// `timeline_state` tells whether the transaction may be broadcast.
    fn add_txn(
        &mut self,
        txn: SignedTransaction,
        gas_amount: u64,
        db_sequence_number: u64,
        balance: u64,
        timeline_state: TimelineState,
    ) -> (status: MempoolAddTransactionStatus)
        requires
            old(self).valid(),
        ensures
            final(self).valid(),
    ;

    /// Reads at most `count` ready transactions whose timeline id is greater
    /// than `timeline_id`, in ascending order, and the largest timeline id
    /// seen. A read for no transaction hands out none and the cursor
    /// `timeline_id` as it came.
    fn read_timeline(&mut self, timeline_id: u64, count: usize) -> (read: (
        Vec<SignedTransaction>,
        u64,
    ))
        requires
            old(self).valid(),
        ensures
            final(self).valid(),
            read.0@.len() <= count,
            count == 0 ==> read.0@.len() == 0 && read.1 == timeline_id,
    ;

    /// Removes the transactions that have stayed in the pool for longer than
    /// the system's time to live.
    fn gc_by_system_ttl(&mut self)
        requires
            old(self).valid(),
        ensures
            final(self).valid(),
    ;
}

/// What lies after a cursor are entries of the log, each with a timeline id
/// greater than the cursor, and in ascending order where the log is.
pub proof fn lemma_after_cursor(log: Seq<TimelineEntry>, cursor: u64)
    ensures
        after_cursor(log, cursor).len() <= log.len(),
        forall|i: int|
            0 <= i < after_cursor(log, cursor).len() ==> (#[trigger] after_cursor(
                log,
                cursor,
            )[i]).timeline_id > cursor && log.contains(after_cursor(log, cursor)[i]),
        ascending(log) ==> ascending(after_cursor(log, cursor)),
    decreases log.len(),
{
    let rest = after_cursor(log, cursor);
    if log.len() > 0 {
        let front = log.drop_last();
        let before = after_cursor(front, cursor);
        lemma_after_cursor(front, cursor);
        assert(log.last() == log[log.len() - 1]);
        assert forall|i: int| 0 <= i < rest.len() implies (#[trigger] rest[i]).timeline_id > cursor
            && log.contains(rest[i]) by {
            if i < before.len() {
                assert(rest[i] == before[i]);
                let k = choose|k: int| 0 <= k < front.len() && front[k] == before[i];
                assert(log[k] == front[k]);
            }
        }
        if ascending(log) {
            assert(ascending(front)) by {
                assert forall|i: int, j: int| 0 <= i < j < front.len() implies (
                #[trigger] front[i]).timeline_id < (#[trigger] front[j]).timeline_id by {
                    assert(front[i] == log[i]);
                    assert(front[j] == log[j]);
                }
            }
            assert forall|i: int, j: int| 0 <= i < j < rest.len() implies (
            #[trigger] rest[i]).timeline_id < (#[trigger] rest[j]).timeline_id by {
                assert(rest[i] == before[i]);
                if j < before.len() {
                    assert(rest[j] == before[j]);
                } else {
                    let k = choose|k: int| 0 <= k < front.len() && front[k] == before[i];
                    assert(log[k] == front[k]);
                }
            }
        }
    }
}

/// A batch read at a cursor holds at most `max_count` entries of the log,
/// each with a timeline id greater than the cursor; where the log is in
/// ascending order, so is the batch.
pub proof fn lemma_batch(log: Seq<TimelineEntry>, cursor: u64, max_count: nat)
    ensures
        batch(log, cursor, max_count).len() <= max_count,
        forall|i: int|
            0 <= i < batch(log, cursor, max_count).len() ==> (#[trigger] batch(
                log,
                cursor,
                max_count,
            )[i]).timeline_id > cursor && log.contains(batch(log, cursor, max_count)[i]),
        ascending(log) ==> ascending(batch(log, cursor, max_count)),
{
    lemma_after_cursor(log, cursor);
    let rest = after_cursor(log, cursor);
    let read = batch(log, cursor, max_count);
    assert forall|i: int| 0 <= i < read.len() implies (#[trigger] read[i]).timeline_id > cursor
        && log.contains(read[i]) by {
        assert(read[i] == rest[i]);
    }
    if ascending(log) {
        assert forall|i: int, j: int| 0 <= i < j < read.len() implies (
        #[trigger] read[i]).timeline_id < (#[trigger] read[j]).timeline_id by {
            assert(read[i] == rest[i]);
            assert(read[j] == rest[j]);
        }
    }
}

/// What is read at the cursor that an acknowledged batch has left is newer
/// than all of that batch: `first` is the batch read from the log `before`
/// at `cursor`, and the next read, from the log as it is then, starts at the
/// timeline id of the last entry of `first`.
pub proof fn lemma_next_batch_is_new(
    before: Seq<TimelineEntry>,
    later: Seq<TimelineEntry>,
    cursor: u64,
    max_count: nat,
    next_max_count: nat,
)
    requires
        ascending(before),
        batch(before, cursor, max_count).len() > 0,
    ensures
        ({
            let first = batch(before, cursor, max_count);
            let next = batch(later, first.last().timeline_id, next_max_count);
            forall|i: int, j: int|
                0 <= i < first.len() && 0 <= j < next.len() ==> (#[trigger] first[i]).timeline_id
                    < (#[trigger] next[j]).timeline_id
        }),
{
    let first = batch(before, cursor, max_count);
    let next = batch(later, first.last().timeline_id, next_max_count);
    lemma_batch(before, cursor, max_count);
    lemma_batch(later, first.last().timeline_id, next_max_count);
    assert forall|i: int, j: int| 0 <= i < first.len() && 0 <= j < next.len() implies (
    #[trigger] first[i]).timeline_id < (#[trigger] next[j]).timeline_id by {
        assert(first[first.len() - 1] == first.last());
        if i < first.len() - 1 {
            assert(first[i].timeline_id < first[first.len() - 1].timeline_id);
        }
    }
}

/// What a worker sends in at most `steps` steps, each of them acknowledged:
/// every step sends the batch at the cursor and moves the cursor to the
/// timeline id of the last entry sent; an empty batch ends the sending.
pub open spec fn sent_in_steps(
    log: Seq<TimelineEntry>,
    cursor: u64,
    max_count: nat,
    steps: nat,
) -> Seq<TimelineEntry>
    decreases steps,
{
    if steps == 0 || batch(log, cursor, max_count).len() == 0 {
        Seq::empty()
    } else {
        batch(log, cursor, max_count) + sent_in_steps(
            log,
            batch(log, cursor, max_count).last().timeline_id,
            max_count,
            (steps - 1) as nat,
        )
    }
}

/// The cursor of a worker after at most `steps` steps, each of them
/// acknowledged.
pub open spec fn cursor_after_steps(
    log: Seq<TimelineEntry>,
    cursor: u64,
    max_count: nat,
    steps: nat,
) -> u64
    decreases steps,
{
    if steps == 0 || batch(log, cursor, max_count).len() == 0 {
        cursor
    } else {
        cursor_after_steps(
            log,
            batch(log, cursor, max_count).last().timeline_id,
            max_count,
            (steps - 1) as nat,
        )
    }
}

/// Nothing of a log lies after the timeline id of its last entry, where the
/// log is in ascending order.
pub proof fn lemma_nothing_after_last(log: Seq<TimelineEntry>, cursor: u64)
    requires
        ascending(log),
        forall|i: int| 0 <= i < log.len() ==> (#[trigger] log[i]).timeline_id <= cursor,
    ensures
        after_cursor(log, cursor).len() == 0,
    decreases log.len(),
{
    if log.len() > 0 {
        let front = log.drop_last();
        assert(log.last() == log[log.len() - 1]);
        assert(ascending(front)) by {
            assert forall|i: int, j: int| 0 <= i < j < front.len() implies (
            #[trigger] front[i]).timeline_id < (#[trigger] front[j]).timeline_id by {
                assert(front[i] == log[i]);
                assert(front[j] == log[j]);
            }
        }
        assert forall|i: int| 0 <= i < front.len() implies (#[trigger] front[i]).timeline_id
            <= cursor by {
            assert(front[i] == log[i]);
        }
        lemma_nothing_after_last(front, cursor);
    }
}

/// The whole of a log lies after a cursor that is below all its timeline
/// ids.
pub proof fn lemma_all_after_cursor(log: Seq<TimelineEntry>, cursor: u64)
    requires
        forall|i: int| 0 <= i < log.len() ==> (#[trigger] log[i]).timeline_id > cursor,
    ensures
        after_cursor(log, cursor) == log,
    decreases log.len(),
{
    if log.len() > 0 {
        let front = log.drop_last();
        assert(log.last() == log[log.len() - 1]);
        assert forall|i: int| 0 <= i < front.len() implies (#[trigger] front[i]).timeline_id
            > cursor by {
            assert(front[i] == log[i]);
        }
        lemma_all_after_cursor(front, cursor);
        assert(front.push(log.last()) =~= log);
    } else {
        assert(after_cursor(log, cursor) =~= log);
    }
}

/// What lies after the `k`-th entry after a cursor is what lies after the
/// cursor without its first `k` entries, where the log is in ascending
/// order.
pub proof fn lemma_after_cursor_skip(log: Seq<TimelineEntry>, cursor: u64, k: int)
    requires
        ascending(log),
        1 <= k <= after_cursor(log, cursor).len(),
    ensures
        after_cursor(log, after_cursor(log, cursor)[k - 1].timeline_id) == after_cursor(
            log,
            cursor,
        ).skip(k),
    decreases log.len(),
{
    let rest = after_cursor(log, cursor);
    let moved = rest[k - 1].timeline_id;
    if log.len() > 0 {
        let front = log.drop_last();
        let newest = log[log.len() - 1];
        let before = after_cursor(front, cursor);
        assert(log.last() == newest);
        assert(ascending(front)) by {
            assert forall|i: int, j: int| 0 <= i < j < front.len() implies (
            #[trigger] front[i]).timeline_id < (#[trigger] front[j]).timeline_id by {
                assert(front[i] == log[i]);
                assert(front[j] == log[j]);
            }
        }
        assert forall|i: int| 0 <= i < front.len() implies (#[trigger] front[i]).timeline_id
            < newest.timeline_id by {
            assert(front[i] == log[i]);
        }
        lemma_after_cursor(front, cursor);
        if newest.timeline_id > cursor {
            assert(rest == before.push(newest));
            if k <= before.len() {
                assert(rest[k - 1] == before[k - 1]);
                assert(front.contains(before[k - 1]));
                let at = choose|at: int| 0 <= at < front.len() && front[at] == before[k - 1];
                assert(front[at].timeline_id < newest.timeline_id);
                lemma_after_cursor_skip(front, cursor, k);
                assert(after_cursor(log, moved) == after_cursor(front, moved).push(newest));
                assert(before.skip(k).push(newest) =~= rest.skip(k));
            } else {
                assert(rest[k - 1] == newest);
                assert forall|i: int| 0 <= i < front.len() implies (
                #[trigger] front[i]).timeline_id <= moved by {}
                lemma_nothing_after_last(front, moved);
                assert(after_cursor(log, moved) == after_cursor(front, moved));
                assert(after_cursor(front, moved) =~= rest.skip(k));
            }
        } else {
            assert(rest == before);
            assert(front.contains(before[k - 1]));
            let at = choose|at: int| 0 <= at < front.len() && front[at] == before[k - 1];
            assert(front[at].timeline_id < newest.timeline_id);
            assert(before[k - 1].timeline_id > cursor);
        }
    }
}

/// A worker whose sends are all acknowledged sends what lies after its
/// cursor once, each entry in one batch and in the order of the log, and
/// ends at the timeline id of the last entry: `steps` is at least the number
/// of entries that lie after the cursor, and a batch holds at least one
/// entry.
pub proof fn lemma_steps_send_the_log_once(
    log: Seq<TimelineEntry>,
    cursor: u64,
    max_count: nat,
    steps: nat,
)
    requires
        ascending(log),
        max_count >= 1,
        steps >= after_cursor(log, cursor).len(),
    ensures
        sent_in_steps(log, cursor, max_count, steps) == after_cursor(log, cursor),
        cursor_after_steps(log, cursor, max_count, steps) == if after_cursor(log, cursor).len()
            == 0 {
            cursor
        } else {
            after_cursor(log, cursor).last().timeline_id
        },
        (forall|i: int| 0 <= i < log.len() ==> (#[trigger] log[i]).timeline_id > cursor)
            ==> sent_in_steps(log, cursor, max_count, steps) == log,
    decreases steps,
{
    let rest = after_cursor(log, cursor);
    let first = batch(log, cursor, max_count);
    if rest.len() == 0 {
        assert(sent_in_steps(log, cursor, max_count, steps) =~= rest);
    } else {
        let k: int = first.len() as int;
        assert(1 <= k <= rest.len());
        assert(first =~= rest.take(k));
        let moved = first.last().timeline_id;
        assert(moved == rest[k - 1].timeline_id);
        lemma_after_cursor_skip(log, cursor, k);
        lemma_steps_send_the_log_once(log, moved, max_count, (steps - 1) as nat);
        assert(rest.take(k) + rest.skip(k) =~= rest);
        if rest.skip(k).len() > 0 {
            assert(rest.skip(k).last() == rest.last());
        }
    }
    if forall|i: int| 0 <= i < log.len() ==> (#[trigger] log[i]).timeline_id > cursor {
        lemma_all_after_cursor(log, cursor);
    }
}

/// A read for no transaction hands out an empty batch, whatever the cursor.
pub proof fn lemma_batch_of_none(log: Seq<TimelineEntry>, cursor: u64)
    ensures
        batch(log, cursor, 0).len() == 0,
{
}

/// A transaction as the pool holds it.
#[derive(Clone, Copy, Debug, PartialEq, Eq, Structural)]
pub struct MempoolTransaction {
    pub txn: SignedTransaction,
    /// The gas that the transaction may spend.
    pub gas_amount: u64,
    /// Whether the transaction may be broadcast.
    pub timeline_state: TimelineState,
    /// The place of a ready transaction in the log; 0 for any other.
    pub timeline_id: u64,
    /// The pool's time, in milliseconds, at which the transaction came in.
    pub admitted_at_ms: u64,
}

/// The record is that of a transaction which may be broadcast.
pub open spec fn is_ready(record: MempoolTransaction) -> bool {
    record.timeline_state is Ready
}

/// The record has stayed for longer than `ttl_ms` at the time `now_ms`.
pub open spec fn is_expired(record: MempoolTransaction, now_ms: u64, ttl_ms: u64) -> bool {
    now_ms > record.admitted_at_ms + ttl_ms
}

/// The pool holds a transaction with the sender and the sequence number of
/// `txn`.
pub open spec fn holds(records: Seq<MempoolTransaction>, txn: SignedTransaction) -> bool {
    exists|i: int| 0 <= i < records.len() && same_transaction((#[trigger] records[i]).txn, txn)
}

/// The log of ready transactions that the records make up, in their order.
pub open spec fn ready_log(records: Seq<MempoolTransaction>) -> Seq<TimelineEntry>
    decreases records.len(),
{
    if records.len() == 0 {
        Seq::empty()
    } else if is_ready(records.last()) {
        ready_log(records.drop_last()).push(
            TimelineEntry { timeline_id: records.last().timeline_id, txn: records.last().txn },
        )
    } else {
        ready_log(records.drop_last())
    }
}

/// The records that have not expired at `now_ms`, in their order.
pub open spec fn unexpired(records: Seq<MempoolTransaction>, now_ms: u64, ttl_ms: u64) -> Seq<
    MempoolTransaction,
>
    decreases records.len(),
{
    if records.len() == 0 {
        Seq::empty()
    } else if is_expired(records.last(), now_ms, ttl_ms) {
        unexpired(records.drop_last(), now_ms, ttl_ms)
    } else {
        unexpired(records.drop_last(), now_ms, ttl_ms).push(records.last())
    }
}

/// No two records hold the same transaction.
pub open spec fn distinct_transactions(records: Seq<MempoolTransaction>) -> bool {
    forall|i: int, j: int|
        0 <= i < j < records.len() ==> !same_transaction(
            (#[trigger] records[i]).txn,
            (#[trigger] records[j]).txn,
        )
}

/// The timeline ids of the ready records are positive, at most `last`, and
/// grow from each ready record to the next.
pub open spec fn timeline_in_order(records: Seq<MempoolTransaction>, last: u64) -> bool {
    &&& forall|i: int|
        0 <= i < records.len() && is_ready(#[trigger] records[i]) ==> 0 < records[i].timeline_id
            <= last
    &&& forall|i: int, j: int|
        0 <= i < j < records.len() && is_ready(#[trigger] records[i]) && is_ready(
            #[trigger] records[j],
        ) ==> records[i].timeline_id < records[j].timeline_id
}

/// How the pool answers the admission of `txn`.
pub open spec fn admission(
    records: Seq<MempoolTransaction>,
    capacity: nat,
    last_timeline_id: u64,
    txn: SignedTransaction,
    gas_amount: u64,
    db_sequence_number: u64,
    balance: u64,
) -> MempoolAddTransactionStatusCode {
    if txn.sequence_number < db_sequence_number {
        MempoolAddTransactionStatusCode::InvalidSeqNumber
    } else if balance < gas_amount {
        MempoolAddTransactionStatusCode::InsufficientBalance
    } else if holds(records, txn) {
        MempoolAddTransactionStatusCode::InvalidUpdate
    } else if records.len() >= capacity || last_timeline_id == u64::MAX {
        MempoolAddTransactionStatusCode::MempoolIsFull
    } else {
        MempoolAddTransactionStatusCode::Valid
    }
}

/// What an admission changes of a pool: the transactions that it holds, and
/// the largest timeline id given out.
pub struct PoolContent {
    pub records: Seq<MempoolTransaction>,
    pub last_timeline_id: u64,
}

/// The content of a pool after the admission of `txn` at the time `now_ms`:
/// an admitted transaction comes last, with the next timeline id if it is
/// ready; a refused one changes nothing.
pub open spec fn added(
    content: PoolContent,
    capacity: nat,
    now_ms: u64,
    txn: SignedTransaction,
    gas_amount: u64,
    db_sequence_number: u64,
    balance: u64,
    timeline_state: TimelineState,
) -> PoolContent {
    if !(admission(
        content.records,
        capacity,
        content.last_timeline_id,
        txn,
        gas_amount,
        db_sequence_number,
        balance,
    ) is Valid) {
        content
    } else if timeline_state is Ready {
        PoolContent {
            records: content.records.push(
                MempoolTransaction {
                    txn,
                    gas_amount,
                    timeline_state,
                    timeline_id: (content.last_timeline_id + 1) as u64,
                    admitted_at_ms: now_ms,
                },
            ),
            last_timeline_id: (content.last_timeline_id + 1) as u64,
        }
    } else {
        PoolContent {
            records: content.records.push(
                MempoolTransaction {
                    txn,
                    gas_amount,
                    timeline_state,
                    timeline_id: 0,
                    admitted_at_ms: now_ms,
                },
            ),
            last_timeline_id: content.last_timeline_id,
        }
    }
}

/// An admission leaves the log of ready transactions as it was, but for a
/// ready transaction that is admitted: that one comes last in the log, with a
/// timeline id greater than any before.
pub proof fn lemma_added(
    content: PoolContent,
    capacity: nat,
    now_ms: u64,
    txn: SignedTransaction,
    gas_amount: u64,
    db_sequence_number: u64,
    balance: u64,
    timeline_state: TimelineState,
)
    ensures
        ({
            let after = added(
                content,
                capacity,
                now_ms,
                txn,
                gas_amount,
                db_sequence_number,
                balance,
                timeline_state,
            );
            let admitted = admission(
                content.records,
                capacity,
                content.last_timeline_id,
                txn,
                gas_amount,
                db_sequence_number,
                balance,
            ) is Valid;
            &&& content.records.is_prefix_of(after.records)
            &&& after.last_timeline_id >= content.last_timeline_id
            &&& ready_log(after.records) == if admitted && timeline_state is Ready {
                ready_log(content.records).push(
                    TimelineEntry { timeline_id: after.last_timeline_id, txn },
                )
            } else {
                ready_log(content.records)
            }
            &&& holds(content.records, txn) ==> after == content
        }),
{
    let after = added(
        content,
        capacity,
        now_ms,
        txn,
        gas_amount,
        db_sequence_number,
        balance,
        timeline_state,
    );
    if after.records.len() > content.records.len() {
        assert(after.records.drop_last() == content.records);
    }
}

/// An ordered pool of pending transactions, bounded in size and in the time
/// that a transaction may stay. Each transaction is held once, by sender and
/// sequence number. A transaction that is admitted as ready gets the next
/// timeline id and thereby its place in the log of ready transactions.
///
/// The rules of admission are this pool's own; another pool behind
/// `MempoolTrait` may admit by other rules. An admission is refused with
/// `InvalidSeqNumber` where the sequence number is older than the sender's
/// in storage, else with `InsufficientBalance` where the balance does not
/// cover the gas, else with `InvalidUpdate` where the transaction is held
/// already, else with `MempoolIsFull` where the pool has no room or no
/// timeline id left. The pool keeps a time of its own, which its user sets.
pub struct CoreMempool {
    transactions: Vec<MempoolTransaction>,
    last_timeline_id: u64,
    capacity: usize,
    system_transaction_timeout_ms: u64,
    now_ms: u64,
}

impl CoreMempool {
    /// The transactions that the pool holds, in the order of their admission.
    pub closed spec fn records(&self) -> Seq<MempoolTransaction> {
        self.transactions@
    }

    /// The largest timeline id given out so far.
    pub closed spec fn last_timeline_id(&self) -> u64 {
        self.last_timeline_id
    }

    /// The most transactions that the pool holds.
    pub closed spec fn capacity(&self) -> nat {
        self.capacity as nat
    }

    /// The time, in milliseconds, that a transaction may stay.
    pub closed spec fn ttl_ms(&self) -> u64 {
        self.system_transaction_timeout_ms
    }

    /// The pool's time, in milliseconds.
    pub closed spec fn now_ms(&self) -> u64 {
        self.now_ms
    }

    /// What the pool holds, and the largest timeline id given out.
    pub open spec fn content(&self) -> PoolContent {
        PoolContent { records: self.records(), last_timeline_id: self.last_timeline_id() }
    }

    /// The log of ready transactions.
    pub open spec fn ready_log(&self) -> Seq<TimelineEntry> {
        ready_log(self.records())
    }

    /// The pool is well formed: no transaction is held twice, the timeline
    /// ids are in order, and the pool is within its capacity.
    pub open spec fn wf(&self) -> bool {
        &&& distinct_transactions(self.records())
        &&& timeline_in_order(self.records(), self.last_timeline_id())
        &&& self.records().len() <= self.capacity()
    }

    /// The same settings and time as `other`.
    pub open spec fn same_settings(&self, other: &CoreMempool) -> bool {
        &&& self.capacity() == other.capacity()
        &&& self.ttl_ms() == other.ttl_ms()
        &&& self.now_ms() == other.now_ms()
    }

    /// An empty pool at time 0.
    pub fn new(capacity: usize, system_transaction_timeout_ms: u64) -> (pool: Self)
        ensures
            pool.wf(),
            pool.records() == Seq::<MempoolTransaction>::empty(),
            pool.last_timeline_id() == 0,
            pool.capacity() == capacity,
            pool.ttl_ms() == system_transaction_timeout_ms,
            pool.now_ms() == 0,
    {
        Self {
            transactions: Vec::new(),
            last_timeline_id: 0,
            capacity,
            system_transaction_timeout_ms,
            now_ms: 0,
        }
    }

    /// Tells the pool the time. The pool's time never runs back.
    pub fn advance_time(&mut self, now_ms: u64)
        requires
            old(self).wf(),
        ensures
            final(self).wf(),
            final(self).records() == old(self).records(),
            final(self).last_timeline_id() == old(self).last_timeline_id(),
            final(self).capacity() == old(self).capacity(),
            final(self).ttl_ms() == old(self).ttl_ms(),
            final(self).now_ms() == if now_ms > old(self).now_ms() {
                now_ms
            } else {
                old(self).now_ms()
            },
    {
        if now_ms > self.now_ms {
            self.now_ms = now_ms;
        }
    }

    /// Number of transactions in the pool.
    pub fn len(&self) -> (len: usize)
        ensures
            len == self.records().len(),
    {
        self.transactions.len()
    }

    /// Whether the pool holds a transaction with the sender and the sequence
    /// number of `txn`.
    pub fn contains(&self, txn: &SignedTransaction) -> (held: bool)
        ensures
            held == holds(self.records(), *txn),
    {
        let mut i: usize = 0;
        while i < self.transactions.len()
            invariant
                i <= self.transactions.len(),
                forall|j: int|
                    0 <= j < i ==> !same_transaction((#[trigger] self.transactions@[j]).txn, *txn),
            decreases self.transactions.len() - i,
        {
            let held = self.transactions[i].txn;
            if held.sender == txn.sender && held.sequence_number == txn.sequence_number {
                return true;
            }
            i += 1;
        }
        false
    }
}

/// Each entry of the log is made of a ready record, and the entries stand in
/// the order of their records.
pub proof fn lemma_ready_log(records: Seq<MempoolTransaction>)
    ensures
        ready_log(records).len() <= records.len(),
        forall|k: int|
            0 <= k < ready_log(records).len() ==> exists|i: int|
                0 <= i < records.len() && is_ready(#[trigger] records[i]) && records[i].txn == (
                #[trigger] ready_log(records)[k]).txn && records[i].timeline_id == ready_log(
                    records,
                )[k].timeline_id,
        forall|last: u64|
            timeline_in_order(records, last) ==> ascending(ready_log(records)) && forall|k: int|
                0 <= k < ready_log(records).len() ==> 0 < (#[trigger] ready_log(
                    records,
                )[k]).timeline_id <= last,
    decreases records.len(),
{
    let log = ready_log(records);
    if records.len() > 0 {
        let front = records.drop_last();
        let before = ready_log(front);
        lemma_ready_log(front);
        assert(records.last() == records[records.len() - 1]);
        assert forall|k: int| 0 <= k < log.len() implies exists|i: int|
            0 <= i < records.len() && is_ready(#[trigger] records[i]) && records[i].txn == (
            #[trigger] log[k]).txn && records[i].timeline_id == log[k].timeline_id by {
            if k < before.len() {
                assert(log[k] == before[k]);
                let i = choose|i: int|
                    0 <= i < front.len() && is_ready(#[trigger] front[i]) && front[i].txn
                        == before[k].txn && front[i].timeline_id == before[k].timeline_id;
                assert(records[i] == front[i]);
            } else {
                assert(is_ready(records[records.len() - 1]));
            }
        }
        assert forall|last: u64| timeline_in_order(records, last) implies ascending(log) && forall|
            k: int,
        |
            0 <= k < log.len() ==> 0 < (#[trigger] log[k]).timeline_id <= last by {
            assert(timeline_in_order(front, last)) by {
                assert forall|i: int| 0 <= i < front.len() && is_ready(
                    #[trigger] front[i],
                ) implies 0 < front[i].timeline_id <= last by {
                    assert(front[i] == records[i]);
                }
                assert forall|i: int, j: int|
                    0 <= i < j < front.len() && is_ready(#[trigger] front[i]) && is_ready(
                        #[trigger] front[j],
                    ) implies front[i].timeline_id < front[j].timeline_id by {
                    assert(front[i] == records[i]);
                    assert(front[j] == records[j]);
                }
            }
            assert forall|k: int| 0 <= k < log.len() implies 0 < (#[trigger] log[k]).timeline_id
                <= last by {
                if k < before.len() {
                    assert(log[k] == before[k]);
                }
            }
            assert forall|a: int, b: int| 0 <= a < b < log.len() implies (
            #[trigger] log[a]).timeline_id < (#[trigger] log[b]).timeline_id by {
                assert(log[a] == before[a]);
                if b < before.len() {
                    assert(log[b] == before[b]);
                } else {
                    let i = choose|i: int|
                        0 <= i < front.len() && is_ready(#[trigger] front[i]) && front[i].txn
                            == before[a].txn && front[i].timeline_id == before[a].timeline_id;
                    assert(records[i] == front[i]);
                }
            }
        }
    }
}

/// What has not expired are records of the pool, and all of them where none
/// has expired.
pub proof fn lemma_unexpired(records: Seq<MempoolTransaction>, now_ms: u64, ttl_ms: u64)
    ensures
        unexpired(records, now_ms, ttl_ms).len() <= records.len(),
        forall|k: int|
            0 <= k < unexpired(records, now_ms, ttl_ms).len() ==> !is_expired(
                #[trigger] unexpired(records, now_ms, ttl_ms)[k],
                now_ms,
                ttl_ms,
            ) && records.contains(unexpired(records, now_ms, ttl_ms)[k]),
        (forall|i: int| 0 <= i < records.len() ==> !is_expired(#[trigger] records[i], now_ms, ttl_ms))
            ==> unexpired(records, now_ms, ttl_ms) == records,
    decreases records.len(),
{
    let kept = unexpired(records, now_ms, ttl_ms);
    if records.len() > 0 {
        let front = records.drop_last();
        let before = unexpired(front, now_ms, ttl_ms);
        lemma_unexpired(front, now_ms, ttl_ms);
        assert(records.last() == records[records.len() - 1]);
        assert forall|k: int| 0 <= k < kept.len() implies !is_expired(
            #[trigger] kept[k],
            now_ms,
            ttl_ms,
        ) && records.contains(kept[k]) by {
            if k < before.len() {
                assert(kept[k] == before[k]);
                let i = choose|i: int| 0 <= i < front.len() && front[i] == before[k];
                assert(records[i] == front[i]);
            }
        }
        if forall|i: int| 0 <= i < records.len() ==> !is_expired(#[trigger] records[i], now_ms, ttl_ms) {
            assert forall|i: int| 0 <= i < front.len() implies !is_expired(
                #[trigger] front[i],
                now_ms,
                ttl_ms,
            ) by {
                assert(front[i] == records[i]);
            }
            assert(kept =~= records);
        }
    } else {
        assert(kept =~= records);
    }
}

/// What has not expired is a well-formed content of the pool where the
/// records were.
pub proof fn lemma_unexpired_in_order(
    records: Seq<MempoolTransaction>,
    last: u64,
    now_ms: u64,
    ttl_ms: u64,
)
    requires
        distinct_transactions(records),
        timeline_in_order(records, last),
    ensures
        distinct_transactions(unexpired(records, now_ms, ttl_ms)),
        timeline_in_order(unexpired(records, now_ms, ttl_ms), last),
    decreases records.len(),
{
    let kept = unexpired(records, now_ms, ttl_ms);
    if records.len() > 0 {
        let front = records.drop_last();
        let before = unexpired(front, now_ms, ttl_ms);
        let newest = records[records.len() - 1];
        assert(records.last() == newest);
        assert(distinct_transactions(front) && timeline_in_order(front, last)) by {
            assert forall|i: int, j: int| 0 <= i < j < front.len() implies !same_transaction(
                (#[trigger] front[i]).txn,
                (#[trigger] front[j]).txn,
            ) by {
                assert(front[i] == records[i]);
                assert(front[j] == records[j]);
            }
            assert forall|i: int| 0 <= i < front.len() && is_ready(#[trigger] front[i]) implies 0
                < front[i].timeline_id <= last by {
                assert(front[i] == records[i]);
            }
            assert forall|i: int, j: int|
                0 <= i < j < front.len() && is_ready(#[trigger] front[i]) && is_ready(
                    #[trigger] front[j],
                ) implies front[i].timeline_id < front[j].timeline_id by {
                assert(front[i] == records[i]);
                assert(front[j] == records[j]);
            }
        }
        lemma_unexpired_in_order(front, last, now_ms, ttl_ms);
        lemma_unexpired(front, now_ms, ttl_ms);
        if !is_expired(newest, now_ms, ttl_ms) {
            assert forall|a: int, b: int| 0 <= a < b < kept.len() implies !same_transaction(
                (#[trigger] kept[a]).txn,
                (#[trigger] kept[b]).txn,
            ) by {
                assert(kept[a] == before[a]);
                if b < before.len() {
                    assert(kept[b] == before[b]);
                } else {
                    let i = choose|i: int| 0 <= i < front.len() && front[i] == before[a];
                    assert(records[i] == front[i]);
                }
            }
            assert forall|a: int| 0 <= a < kept.len() && is_ready(#[trigger] kept[a]) implies 0
                < kept[a].timeline_id <= last by {
                if a < before.len() {
                    assert(kept[a] == before[a]);
                }
            }
            assert forall|a: int, b: int|
                0 <= a < b < kept.len() && is_ready(#[trigger] kept[a]) && is_ready(
                    #[trigger] kept[b],
                ) implies kept[a].timeline_id < kept[b].timeline_id by {
                assert(kept[a] == before[a]);
                if b < before.len() {
                    assert(kept[b] == before[b]);
                } else {
                    let i = choose|i: int| 0 <= i < front.len() && front[i] == before[a];
                    assert(records[i] == front[i]);
                }
            }
        }
    }
}

/// Reading the records one by one, what lies after the cursor only grows at
/// its end.
pub proof fn lemma_scan_prefix(records: Seq<MempoolTransaction>, cursor: u64, i: int, j: int)
    requires
        0 <= i <= j <= records.len(),
    ensures
        after_cursor(ready_log(records.take(i)), cursor).is_prefix_of(
            after_cursor(ready_log(records.take(j)), cursor),
        ),
    decreases j - i,
{
    if i < j {
        lemma_scan_prefix(records, cursor, i, j - 1);
        lemma_scan_step(records, cursor, j - 1);
    }
}

/// Reading one more record adds its entry to what lies after the cursor
/// where the record is ready and its timeline id greater than the cursor, and
/// nothing else.
pub proof fn lemma_scan_step(records: Seq<MempoolTransaction>, cursor: u64, i: int)
    requires
        0 <= i < records.len(),
    ensures
        after_cursor(ready_log(records.take(i + 1)), cursor) == if is_ready(records[i])
            && records[i].timeline_id > cursor {
            after_cursor(ready_log(records.take(i)), cursor).push(
                TimelineEntry { timeline_id: records[i].timeline_id, txn: records[i].txn },
            )
        } else {
            after_cursor(ready_log(records.take(i)), cursor)
        },
{
    let next = records.take(i + 1);
    assert(next.drop_last() == records.take(i));
    assert(next.last() == records[i]);
    if is_ready(records[i]) {
        let entry = TimelineEntry { timeline_id: records[i].timeline_id, txn: records[i].txn };
        let log = ready_log(records.take(i)).push(entry);
        assert(log.drop_last() == ready_log(records.take(i)));
        assert(log.last() == entry);
    }
}

/// A transaction that the pool holds without its being ready is in no batch
/// that a read hands out.
pub proof fn lemma_unready_never_read(
    records: Seq<MempoolTransaction>,
    at: int,
    cursor: u64,
    max_count: nat,
)
    requires
        distinct_transactions(records),
        0 <= at < records.len(),
        !is_ready(records[at]),
    ensures
        forall|k: int|
            0 <= k < batch(ready_log(records), cursor, max_count).len() ==> !same_transaction(
                (#[trigger] batch(ready_log(records), cursor, max_count)[k]).txn,
                records[at].txn,
            ),
{
    let log = ready_log(records);
    let read = batch(log, cursor, max_count);
    lemma_batch(log, cursor, max_count);
    lemma_ready_log(records);
    assert forall|k: int| 0 <= k < read.len() implies !same_transaction(
        (#[trigger] read[k]).txn,
        records[at].txn,
    ) by {
        assert(log.contains(read[k]));
        let m = choose|m: int| 0 <= m < log.len() && log[m] == read[k];
        let i = choose|i: int|
            0 <= i < records.len() && is_ready(#[trigger] records[i]) && records[i].txn == (
            #[trigger] log[m]).txn && records[i].timeline_id == log[m].timeline_id;
        if i < at {
            assert(!same_transaction(records[i].txn, records[at].txn));
        } else {
            assert(!same_transaction(records[at].txn, records[i].txn));
        }
    }
}

impl MempoolTrait for CoreMempool {
    /// A pool is valid when it is well formed.
    open spec fn valid(&self) -> bool {
        self.wf()
    }

    /// Admits `txn` unless one of the pool's rules refuses it. An admitted
    /// transaction comes last in the pool; if it is ready, it gets the next
    /// timeline id and comes last in the log of ready transactions. A refused
    /// admission changes nothing, and so does the admission of a transaction
    /// that the pool holds already.
    fn add_txn(
        &mut self,
        txn: SignedTransaction,
        gas_amount: u64,
        db_sequence_number: u64,
        balance: u64,
        timeline_state: TimelineState,
    ) -> (status: MempoolAddTransactionStatus)
        ensures
            final(self).wf(),
            final(self).same_settings(old(self)),
            status.code == admission(
                old(self).records(),
                old(self).capacity(),
                old(self).last_timeline_id(),
                txn,
                gas_amount,
                db_sequence_number,
                balance,
            ),
            status.message@.len() == 0,
            final(self).content() == added(
                old(self).content(),
                old(self).capacity(),
                old(self).now_ms(),
                txn,
                gas_amount,
                db_sequence_number,
                balance,
                timeline_state,
            ),
            !(status.code is Valid) ==> final(self).records() == old(self).records()
                && final(self).last_timeline_id() == old(self).last_timeline_id(),
            status.code is Valid && timeline_state is Ready ==> final(self).last_timeline_id()
                == old(self).last_timeline_id() + 1 && final(self).records() == old(self).records().push(
                MempoolTransaction {
                    txn,
                    gas_amount,
                    timeline_state,
                    timeline_id: final(self).last_timeline_id(),
                    admitted_at_ms: old(self).now_ms(),
                },
            ) && final(self).ready_log() == old(self).ready_log().push(
                TimelineEntry { timeline_id: final(self).last_timeline_id(), txn },
            ),
            status.code is Valid && !(timeline_state is Ready) ==> final(self).last_timeline_id()
                == old(self).last_timeline_id() && final(self).records() == old(self).records().push(
                MempoolTransaction {
                    txn,
                    gas_amount,
                    timeline_state,
                    timeline_id: 0,
                    admitted_at_ms: old(self).now_ms(),
                },
            ) && final(self).ready_log() == old(self).ready_log(),
            holds(old(self).records(), txn) ==> final(self).ready_log() == old(self).ready_log(),
    {
        let code = if txn.sequence_number < db_sequence_number {
            MempoolAddTransactionStatusCode::InvalidSeqNumber
        } else if balance < gas_amount {
            MempoolAddTransactionStatusCode::InsufficientBalance
        } else if self.contains(&txn) {
            MempoolAddTransactionStatusCode::InvalidUpdate
        } else if self.transactions.len() >= self.capacity || self.last_timeline_id == u64::MAX {
            MempoolAddTransactionStatusCode::MempoolIsFull
        } else {
            let ghost before = self.transactions@;
            let timeline_id = match timeline_state {
                TimelineState::Ready => {
                    self.last_timeline_id = self.last_timeline_id + 1;
                    self.last_timeline_id
                },
                _ => 0,
            };
            let record = MempoolTransaction {
                txn,
                gas_amount,
                timeline_state,
                timeline_id,
                admitted_at_ms: self.now_ms,
            };
            self.transactions.push(record);
            proof {
                let after = self.transactions@;
                assert(after.drop_last() == before);
                assert(after.last() == record);
                assert forall|i: int, j: int| 0 <= i < j < after.len() implies !same_transaction(
                    (#[trigger] after[i]).txn,
                    (#[trigger] after[j]).txn,
                ) by {
                    assert(after[i] == before[i]);
                    if j < before.len() {
                        assert(after[j] == before[j]);
                    }
                }
                assert forall|i: int| 0 <= i < after.len() && is_ready(#[trigger] after[i]) implies 0
                    < after[i].timeline_id <= self.last_timeline_id by {
                    if i < before.len() {
                        assert(after[i] == before[i]);
                    }
                }
                assert forall|i: int, j: int|
                    0 <= i < j < after.len() && is_ready(#[trigger] after[i]) && is_ready(
                        #[trigger] after[j],
                    ) implies after[i].timeline_id < after[j].timeline_id by {
                    assert(after[i] == before[i]);
                    if j < before.len() {
                        assert(after[j] == before[j]);
                    }
                }
            }
            MempoolAddTransactionStatusCode::Valid
        };
        MempoolAddTransactionStatus::new(code, String::new())
    }

    /// Reads the batch at `timeline_id`: at most `count` ready transactions
    /// whose timeline id is greater than `timeline_id`, in the order of the
    /// log, and the timeline id of the last of them, or `timeline_id` itself
    /// where there is none. The pool stays as it is.
    fn read_timeline(&mut self, timeline_id: u64, count: usize) -> (read: (
        Vec<SignedTransaction>,
        u64,
    ))
        ensures
            final(self).wf(),
            final(self).same_settings(old(self)),
            final(self).records() == old(self).records(),
            final(self).last_timeline_id() == old(self).last_timeline_id(),
            read.0@ == transactions_of(batch(old(self).ready_log(), timeline_id, count as nat)),
            read.1 == if read.0@.len() == 0 {
                timeline_id
            } else {
                batch(old(self).ready_log(), timeline_id, count as nat).last().timeline_id
            },
            read.0@.len() <= count,
            read.1 >= timeline_id,
            count == 0 ==> read.0@.len() == 0 && read.1 == timeline_id,
    {
        let mut transactions: Vec<SignedTransaction> = Vec::new();
        let mut last_seen = timeline_id;
        let ghost records = self.transactions@;
        let ghost mut seen: Seq<TimelineEntry> = Seq::empty();
        let mut i: usize = 0;
        proof {
            assert(records.take(0) =~= Seq::<MempoolTransaction>::empty());
        }
        while i < self.transactions.len() && transactions.len() < count
            invariant
                i <= self.transactions.len(),
                records == self.transactions@,
                seen == after_cursor(ready_log(records.take(i as int)), timeline_id),
                transactions@ == transactions_of(seen),
                transactions@.len() <= count,
                last_seen == if seen.len() == 0 {
                    timeline_id
                } else {
                    seen.last().timeline_id
                },
            decreases self.transactions.len() - i,
        {
            let record = self.transactions[i];
            proof {
                lemma_scan_step(records, timeline_id, i as int);
            }
            match record.timeline_state {
                TimelineState::Ready => {
                    if record.timeline_id > timeline_id {
                        transactions.push(record.txn);
                        last_seen = record.timeline_id;
                        proof {
                            seen = seen.push(
                                TimelineEntry { timeline_id: record.timeline_id, txn: record.txn },
                            );
                            assert(transactions@ =~= transactions_of(seen));
                        }
                    }
                },
                _ => {},
            }
            i += 1;
        }
        proof {
            let log = ready_log(records);
            let rest = after_cursor(log, timeline_id);
            assert(records.take(records.len() as int) == records);
            lemma_scan_prefix(records, timeline_id, i as int, records.len() as int);
            assert(seen.is_prefix_of(rest));
            if i < records.len() {
                assert(seen.len() == count);
                assert(seen =~= rest.take(count as int));
            } else {
                assert(seen == rest);
            }
            assert(seen =~= batch(log, timeline_id, count as nat));
            lemma_batch(log, timeline_id, count as nat);
        }
        (transactions, last_seen)
    }

    /// Removes the transactions that have stayed for longer than the time to
    /// live at the pool's time. The others stay in their order, and where
    /// none has expired the pool stays as it is.
    fn gc_by_system_ttl(&mut self)
        ensures
            final(self).wf(),
            final(self).same_settings(old(self)),
            final(self).last_timeline_id() == old(self).last_timeline_id(),
            final(self).records() == unexpired(
                old(self).records(),
                old(self).now_ms(),
                old(self).ttl_ms(),
            ),
            (forall|i: int|
                0 <= i < old(self).records().len() ==> !is_expired(
                    #[trigger] old(self).records()[i],
                    old(self).now_ms(),
                    old(self).ttl_ms(),
                )) ==> final(self).records() == old(self).records(),
    {
        let ghost records = self.transactions@;
        let mut kept: Vec<MempoolTransaction> = Vec::new();
        let mut i: usize = 0;
        proof {
            assert(records.take(0) =~= Seq::<MempoolTransaction>::empty());
        }
        while i < self.transactions.len()
            invariant
                i <= self.transactions.len(),
                records == self.transactions@,
                self.now_ms == old(self).now_ms,
                self.system_transaction_timeout_ms == old(self).system_transaction_timeout_ms,
                self.capacity == old(self).capacity,
                self.last_timeline_id == old(self).last_timeline_id,
                kept@ == unexpired(
                    records.take(i as int),
                    self.now_ms,
                    self.system_transaction_timeout_ms,
                ),
            decreases self.transactions.len() - i,
        {
            let record = self.transactions[i];
            proof {
                let next = records.take(i + 1);
                assert(next.drop_last() == records.take(i as int));
                assert(next.last() == record);
            }
            let expired = self.now_ms > record.admitted_at_ms && self.now_ms
                - record.admitted_at_ms > self.system_transaction_timeout_ms;
            if !expired {
                kept.push(record);
            }
            i += 1;
        }
        proof {
            assert(records.take(i as int) == records);
            lemma_unexpired(records, self.now_ms, self.system_transaction_timeout_ms);
            lemma_unexpired_in_order(
                records,
                self.last_timeline_id,
                self.now_ms,
                self.system_transaction_timeout_ms,
            );
        }
        self.transactions = kept;
    }
}

} // verus!
