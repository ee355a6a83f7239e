//! The shared mempool: the peer registry and the decisions of the tasks that
//! admit transactions and broadcast them to upstream peers. The tasks
//! themselves wait for the network, for storage and for timers; each hands
//! what it has received to the functions of this module and carries out what
//! they decide.

use crate::core_mempool::{
    added, batch, cursor_after_steps, lemma_added, lemma_all_after_cursor, lemma_batch,
    lemma_ready_log, lemma_steps_send_the_log_once, ready_log, sent_in_steps, transactions_of,
    CoreMempool, MempoolAddTransactionStatus, MempoolTrait, PoolContent, TimelineState,
};
use crate::types::{PeerId, PeerNetworkId, SignedTransaction};
use vstd::prelude::*;

pub mod inbound;
pub mod peer_manager;
pub mod peer_model;

verus! {

/// What a broadcast worker is told to do.
#[derive(Clone, Copy, Debug, PartialEq, Eq, Structural)]
pub enum WorkerState {
    /// Broadcast, step after step.
    Start,
    /// Hold, and be ready to start again.
    Pause,
    /// Leave.
    Kill,
}

/// A worker's report of the timeline id up to which its peer has
/// acknowledged the log.
#[derive(Clone, Copy, Debug, PartialEq, Eq, Structural, Hash)]
pub struct PeerSyncUpdate {
    pub peer: PeerNetworkId,
    pub timeline_id: u64,
}

/// What the shared mempool tells its subscribers.
#[derive(Clone, Copy, Debug, PartialEq, Eq, Structural, Hash)]
pub enum SharedMempoolNotification {
    PeerStateChange,
    NewTransactions,
    SyncUpdate { worker_peer: PeerId },
}

/// A batch of transactions on its way to a peer.
#[derive(Clone, Debug, PartialEq, Eq)]
pub struct BroadcastTransactionsRequest {
    pub peer_id: PeerId,
    pub transactions: Vec<SignedTransaction>,
}

/// The answer to a batch, with a hint of how long the sender should hold
/// back.
#[derive(Clone, Copy, Debug, PartialEq, Eq, Structural)]
pub struct BroadcastTransactionsResponse {
    pub backpressure_ms: u32,
}

/// A message of the mempool's peer-to-peer protocol.
#[derive(Clone, Debug, PartialEq, Eq)]
pub enum MempoolSyncMsg {
    BroadcastTransactionsRequest(BroadcastTransactionsRequest),
    BroadcastTransactionsResponse(BroadcastTransactionsResponse),
}

/// What a worker finds on its control channel.
#[derive(Clone, Copy, Debug, PartialEq, Eq, Structural)]
pub enum ControlPoll {
    /// The newest message of the master.
    Message(WorkerState),
    /// No message is waiting.
    Empty,
    /// The master has closed the channel.
    Closed,
}

/// The state of a worker after it has looked at its control channel: a
/// message sets the state, a closed channel ends the worker, and a worker
/// that has ended stays so.
pub open spec fn spec_next_worker_state(state: WorkerState, poll: ControlPoll) -> WorkerState {
    match state {
        WorkerState::Kill => WorkerState::Kill,
        _ => match poll {
            ControlPoll::Message(told) => told,
            ControlPoll::Empty => state,
            ControlPoll::Closed => WorkerState::Kill,
        },
    }
}

/// The state of a worker after it has looked at its control channel.
pub fn next_worker_state(state: WorkerState, poll: ControlPoll) -> (next: WorkerState)
    ensures
        next == spec_next_worker_state(state, poll),
{
    match state {
        WorkerState::Kill => WorkerState::Kill,
        _ => match poll {
            ControlPoll::Message(told) => told,
            ControlPoll::Empty => state,
            ControlPoll::Closed => WorkerState::Kill,
        },
    }
}

/// What a worker does next.
#[derive(Clone, Copy, Debug, PartialEq, Eq, Structural)]
pub enum WorkerAction {
    /// Make one broadcast step, then look at the control channel again.
    Step,
    /// Send nothing; wait, then look at the control channel again.
    Wait,
    /// Leave for good.
    Leave,
}

/// The state of a worker and what it does in that state.
#[derive(Clone, Copy, Debug, PartialEq, Eq, Structural)]
pub struct WorkerDecision {
    pub state: WorkerState,
    pub action: WorkerAction,
}

/// What a worker does in a state: it broadcasts only while it is told to
/// start, waits while it is told to pause, and leaves when it is told to.
pub open spec fn spec_worker_action(state: WorkerState) -> WorkerAction {
    match state {
        WorkerState::Start => WorkerAction::Step,
        WorkerState::Pause => WorkerAction::Wait,
        WorkerState::Kill => WorkerAction::Leave,
    }
}

/// One turn of a worker: it looks at its control channel, takes the state
/// that it finds there, and does what that state asks for. A worker starts
/// in the state `Start`.
pub fn worker(state: WorkerState, poll: ControlPoll) -> (decision: WorkerDecision)
    ensures
        decision.state == spec_next_worker_state(state, poll),
        decision.action == spec_worker_action(decision.state),
{
    let state = next_worker_state(state, poll);
    let action = match state {
        WorkerState::Start => WorkerAction::Step,
        WorkerState::Pause => WorkerAction::Wait,
        WorkerState::Kill => WorkerAction::Leave,
    };
    WorkerDecision { state, action }
}

/// What a worker does in one broadcast step.
#[derive(Clone, Debug, PartialEq, Eq)]
pub enum BroadcastStep {
    /// Nothing is ready for the peer: sleep, then step again.
    Idle,
    /// Send the request to the peer; once the peer has acknowledged it, the
    /// peer's cursor is `new_timeline_id`.
    Send { request: BroadcastTransactionsRequest, new_timeline_id: u64 },
}

/// The step that follows a read of the log: idle where the read found
/// nothing, else the request for what it found.
pub fn plan_broadcast(
    peer_id: PeerId,
    transactions: Vec<SignedTransaction>,
    new_timeline_id: u64,
) -> (step: BroadcastStep)
    ensures
        transactions@.len() == 0 ==> step is Idle,
        transactions@.len() > 0 ==> (step matches BroadcastStep::Send { request, new_timeline_id: id }
            && request.peer_id == peer_id && request.transactions@ == transactions@ && id
            == new_timeline_id),
{
    if transactions.len() == 0 {
        BroadcastStep::Idle
    } else {
        BroadcastStep::Send {
            request: BroadcastTransactionsRequest { peer_id, transactions },
            new_timeline_id,
        }
    }
}

/// One broadcast step of the worker of `peer_id`, whose cursor is
/// `curr_timeline_id`: reads the batch at the cursor from the pool and plans
/// its sending. The request holds the batch, which is at most `batch_size`
/// ready transactions with timeline ids greater than the cursor, in the
/// order of the log; where the batch is empty, also for a `batch_size` of 0,
/// the step is idle. The pool stays as it is.
pub fn broadcast_transactions(
    mempool: &mut CoreMempool,
    curr_timeline_id: u64,
    peer_id: PeerId,
    batch_size: usize,
) -> (step: BroadcastStep)
    requires
        old(mempool).wf(),
    ensures
        final(mempool).wf(),
        final(mempool).same_settings(old(mempool)),
        final(mempool).content() == old(mempool).content(),
        ({
            let read = batch(old(mempool).ready_log(), curr_timeline_id, batch_size as nat);
            &&& read.len() == 0 ==> step is Idle
            &&& read.len() > 0 ==> (step matches BroadcastStep::Send { request, new_timeline_id }
                && request.peer_id == peer_id && request.transactions@ == transactions_of(read)
                && new_timeline_id == read.last().timeline_id && new_timeline_id
                > curr_timeline_id)
            &&& read.len() <= batch_size
            &&& forall|k: int|
                0 <= k < read.len() ==> (#[trigger] read[k]).timeline_id > curr_timeline_id
                    && old(mempool).ready_log().contains(read[k])
        }),
{
    proof {
        lemma_batch(mempool.ready_log(), curr_timeline_id, batch_size as nat);
    }
    let (transactions, new_timeline_id) = mempool.read_timeline(curr_timeline_id, batch_size);
    plan_broadcast(peer_id, transactions, new_timeline_id)
}

/// A worker that starts at cursor 0 on a pool to which nothing is admitted
/// meanwhile, and whose sends are all acknowledged, sends every ready
/// transaction of the pool exactly once, in the order of the log, and ends
/// with the timeline id of the last of them as its cursor. Each step sends
/// the batch that `broadcast_transactions` reads and moves the cursor as
/// `complete_broadcast` says; `steps` is at least the length of the log, and
/// a batch holds at least one transaction.
pub proof fn lemma_worker_sends_the_log_once(pool: &CoreMempool, batch_size: nat, steps: nat)
    requires
        pool.wf(),
        batch_size >= 1,
        steps >= pool.ready_log().len(),
    ensures
        sent_in_steps(pool.ready_log(), 0, batch_size, steps) == pool.ready_log(),
        cursor_after_steps(pool.ready_log(), 0, batch_size, steps) == if pool.ready_log().len()
            == 0 {
            0
        } else {
            pool.ready_log().last().timeline_id
        },
{
    let log = pool.ready_log();
    lemma_ready_log(pool.records());
    assert(crate::core_mempool::timeline_in_order(pool.records(), pool.last_timeline_id()));
    assert forall|i: int| 0 <= i < log.len() implies (#[trigger] log[i]).timeline_id > 0 by {}
    lemma_all_after_cursor(log, 0);
    lemma_steps_send_the_log_once(log, 0, batch_size, steps);
}

/// Where a worker stands once the peer has answered a request, or has not.
#[derive(Clone, Copy, Debug, PartialEq, Eq, Structural)]
pub struct BroadcastOutcome {
    /// The worker's cursor.
    pub timeline_id: u64,
    /// The report to push to the master, if there is one.
    pub update: Option<PeerSyncUpdate>,
}

/// The outcome of a request that was planned with the cursor
/// `curr_timeline_id`. An acknowledged request moves the cursor to
/// `new_timeline_id`, which is reported to the master. A failed one leaves
/// the cursor where it was, so that the next step sends the same batch again,
/// and nothing is reported.
pub fn complete_broadcast(
    curr_timeline_id: u64,
    new_timeline_id: u64,
    peer: PeerNetworkId,
    acknowledged: bool,
) -> (outcome: BroadcastOutcome)
    ensures
        acknowledged ==> outcome == (BroadcastOutcome {
            timeline_id: new_timeline_id,
            update: Some(PeerSyncUpdate { peer, timeline_id: new_timeline_id }),
        }),
        !acknowledged ==> outcome == (BroadcastOutcome {
            timeline_id: curr_timeline_id,
            update: None,
        }),
{
    if acknowledged {
        BroadcastOutcome {
            timeline_id: new_timeline_id,
            update: Some(PeerSyncUpdate { peer, timeline_id: new_timeline_id }),
        }
    } else {
        BroadcastOutcome { timeline_id: curr_timeline_id, update: None }
    }
}

/// The state of a worker after it has tried to push its report to the
/// master: it goes on where the push went through, and ends where it did not.
pub fn after_update_push(pushed: bool) -> (state: WorkerState)
    ensures
        state == if pushed {
            WorkerState::Start
        } else {
            WorkerState::Kill
        },
{
    if pushed {
        WorkerState::Start
    } else {
        WorkerState::Kill
    }
}

/// One tick of the timer that clears the pool of expired transactions.
pub fn gc_task(mempool: &mut CoreMempool)
    requires
        old(mempool).wf(),
    ensures
        final(mempool).wf(),
        final(mempool).same_settings(old(mempool)),
        final(mempool).last_timeline_id() == old(mempool).last_timeline_id(),
        final(mempool).records() == crate::core_mempool::unexpired(
            old(mempool).records(),
            old(mempool).now_ms(),
            old(mempool).ttl_ms(),
        ),
{
    mempool.gc_by_system_ttl();
}

/// What storage knows of an account.
#[derive(Clone, Copy, Debug, PartialEq, Eq, Structural)]
pub struct AccountState {
    pub sequence_number: u64,
    pub balance: u64,
}

/// A transaction with its sender's sequence number and balance in storage.
#[derive(Clone, Copy, Debug, PartialEq, Eq, Structural)]
pub struct CheckedTransaction {
    pub txn: SignedTransaction,
    pub sequence_number: u64,
    pub balance: u64,
}

/// How the validation of a transaction by the virtual machine went.
#[derive(Clone, Copy, Debug, PartialEq, Eq, Structural)]
pub enum VmValidation {
    /// The virtual machine found no fault.
    Accepted,
    /// The virtual machine refused the transaction.
    Rejected,
    /// The validation itself failed.
    Failed,
}

/// What the security log of the node takes note of.
#[derive(Clone, Copy, Debug, PartialEq, Eq, Structural)]
pub enum SecurityEvent {
    /// A peer has sent a transaction that cannot be decoded.
    InvalidTransactionMP,
    /// The network has delivered an event that cannot be read.
    InvalidNetworkEventMP,
}

/// A report for the security log: the event, and the place in its batch of
/// the item that gave rise to it.
#[derive(Clone, Copy, Debug, PartialEq, Eq, Structural)]
pub struct SecurityReport {
    pub event: SecurityEvent,
    pub position: usize,
}

/// A batch after decoding: the transactions that were decoded, and one
/// report for each item that was not.
#[derive(Clone, Debug, PartialEq, Eq)]
pub struct DecodedBatch {
    pub transactions: Vec<SignedTransaction>,
    pub reports: Vec<SecurityReport>,
}

/// One report for each of the first `n` items that was not decoded, in
/// their order.
pub open spec fn undecoded_among(items: Seq<Option<SignedTransaction>>, n: nat) -> Seq<
    SecurityReport,
>
    decreases n,
{
    if n == 0 {
        Seq::empty()
    } else if items[n - 1] is None {
        undecoded_among(items, (n - 1) as nat).push(
            SecurityReport {
                event: SecurityEvent::InvalidTransactionMP,
                position: (n - 1) as usize,
            },
        )
    } else {
        undecoded_among(items, (n - 1) as nat)
    }
}

/// The transactions that were decoded, in their order.
pub open spec fn decoded(items: Seq<Option<SignedTransaction>>) -> Seq<SignedTransaction>
    decreases items.len(),
{
    if items.len() == 0 {
        Seq::empty()
    } else {
        match items.last() {
            Some(txn) => decoded(items.drop_last()).push(txn),
            None => decoded(items.drop_last()),
        }
    }
}

/// Of the first `n` transactions, those whose account state was found, each
/// with that state, in their order.
pub open spec fn found_among(
    transactions: Seq<SignedTransaction>,
    account_states: Seq<Option<AccountState>>,
    n: nat,
) -> Seq<CheckedTransaction>
    decreases n,
{
    if n == 0 {
        Seq::empty()
    } else {
        match account_states[n - 1] {
            Some(state) => found_among(transactions, account_states, (n - 1) as nat).push(
                CheckedTransaction {
                    txn: transactions[n - 1],
                    sequence_number: state.sequence_number,
                    balance: state.balance,
                },
            ),
            None => found_among(transactions, account_states, (n - 1) as nat),
        }
    }
}

/// Of the first `n` transactions, those that the virtual machine accepted,
/// in their order.
pub open spec fn accepted_among(
    transactions: Seq<CheckedTransaction>,
    validations: Seq<VmValidation>,
    n: nat,
) -> Seq<CheckedTransaction>
    decreases n,
{
    if n == 0 {
        Seq::empty()
    } else if validations[n - 1] is Accepted {
        accepted_among(transactions, validations, (n - 1) as nat).push(transactions[n - 1])
    } else {
        accepted_among(transactions, validations, (n - 1) as nat)
    }
}

/// The state in which the transactions of a batch from `peer_id` enter the
/// pool: those of a peer of the validator network are never broadcast again,
/// those of any other peer are ready for broadcast.
pub open spec fn spec_timeline_state_for(validator_peers: Seq<PeerId>, peer_id: PeerId) -> TimelineState {
    if validator_peers.contains(peer_id) {
        TimelineState::NonQualified
    } else {
        TimelineState::Ready
    }
}

/// The content of a pool after the admission of each of `transactions` in
/// turn, with its own gas limit and its sender's account state.
pub open spec fn submitted(
    content: PoolContent,
    capacity: nat,
    now_ms: u64,
    transactions: Seq<CheckedTransaction>,
    timeline_state: TimelineState,
) -> PoolContent
    decreases transactions.len(),
{
    if transactions.len() == 0 {
        content
    } else {
        added(
            submitted(content, capacity, now_ms, transactions.drop_last(), timeline_state),
            capacity,
            now_ms,
            transactions.last().txn,
            transactions.last().txn.max_gas_amount,
            transactions.last().sequence_number,
            transactions.last().balance,
            timeline_state,
        )
    }
}

/// Admissions only add to the pool, and in a state other than ready they
/// leave the log of ready transactions as it was.
pub proof fn lemma_submitted(
    content: PoolContent,
    capacity: nat,
    now_ms: u64,
    transactions: Seq<CheckedTransaction>,
    timeline_state: TimelineState,
)
    ensures
        content.records.is_prefix_of(
            submitted(content, capacity, now_ms, transactions, timeline_state).records,
        ),
        ready_log(content.records).is_prefix_of(
            ready_log(submitted(content, capacity, now_ms, transactions, timeline_state).records),
        ),
        !(timeline_state is Ready) ==> ready_log(
            submitted(content, capacity, now_ms, transactions, timeline_state).records,
        ) == ready_log(content.records),
    decreases transactions.len(),
{
    if transactions.len() > 0 {
        let before = submitted(
            content,
            capacity,
            now_ms,
            transactions.drop_last(),
            timeline_state,
        );
        lemma_submitted(content, capacity, now_ms, transactions.drop_last(), timeline_state);
        lemma_added(
            before,
            capacity,
            now_ms,
            transactions.last().txn,
            transactions.last().txn.max_gas_amount,
            transactions.last().sequence_number,
            transactions.last().balance,
            timeline_state,
        );
    }
}

/// Drops what could not be decoded from a batch, keeps the rest in its
/// order, and hands back one report of an invalid transaction for each item
/// that was dropped, with its place in the batch. The batch itself never
/// fails.
pub fn decoded_transactions(items: Vec<Option<SignedTransaction>>) -> (batch: DecodedBatch)
    ensures
        batch.transactions@ == decoded(items@),
        batch.reports@ == undecoded_among(items@, items@.len()),
        batch.transactions@.len() + batch.reports@.len() == items@.len(),
{
    let mut transactions: Vec<SignedTransaction> = Vec::new();
    let mut reports: Vec<SecurityReport> = Vec::new();
    let mut i: usize = 0;
    proof {
        assert(items@.take(0) =~= Seq::<Option<SignedTransaction>>::empty());
    }
    while i < items.len()
        invariant
            i <= items.len(),
            transactions@ == decoded(items@.take(i as int)),
            reports@ == undecoded_among(items@, i as nat),
            transactions@.len() + reports@.len() == i,
        decreases items.len() - i,
    {
        proof {
            let next = items@.take(i + 1);
            assert(next.drop_last() == items@.take(i as int));
            assert(next.last() == items@[i as int]);
        }
        match items[i] {
            Some(txn) => {
                transactions.push(txn);
            },
            None => {
                reports.push(
                    SecurityReport { event: SecurityEvent::InvalidTransactionMP, position: i },
                );
            },
        }
        i += 1;
    }
    proof {
        assert(items@.take(i as int) == items@);
    }
    DecodedBatch { transactions, reports }
}

/// Keeps the transactions whose sender's account state was found in
/// storage, each with that state, in their order. `account_states` holds the
/// answer of storage for each transaction, in the order of the transactions.
pub fn with_account_states(
    transactions: Vec<SignedTransaction>,
    account_states: &Vec<Option<AccountState>>,
) -> (found: Vec<CheckedTransaction>)
    requires
        account_states@.len() >= transactions@.len(),
    ensures
        found@ == found_among(transactions@, account_states@, transactions@.len()),
{
    let mut found: Vec<CheckedTransaction> = Vec::new();
    let mut i: usize = 0;
    while i < transactions.len()
        invariant
            i <= transactions.len(),
            account_states@.len() >= transactions@.len(),
            found@ == found_among(transactions@, account_states@, i as nat),
        decreases transactions.len() - i,
    {
        match account_states[i] {
            Some(state) => {
                found.push(
                    CheckedTransaction {
                        txn: transactions[i],
                        sequence_number: state.sequence_number,
                        balance: state.balance,
                    },
                );
            },
            None => {},
        }
        i += 1;
    }
    found
}

/// The state in which the transactions of a batch from `peer_id` enter the
/// pool.
pub fn timeline_state_for(validator_peers: &Vec<PeerId>, peer_id: PeerId) -> (state: TimelineState)
    ensures
        state == spec_timeline_state_for(validator_peers@, peer_id),
{
    let mut i: usize = 0;
    while i < validator_peers.len()
        invariant
            i <= validator_peers.len(),
            forall|j: int| 0 <= j < i ==> validator_peers@[j] != peer_id,
        decreases validator_peers.len() - i,
    {
        if validator_peers[i] == peer_id {
            return TimelineState::NonQualified;
        }
        i += 1;
    }
    TimelineState::Ready
}

/// How long the sender of a batch should hold back, in milliseconds, given
/// how the pool answered the admissions. No sender is held back.
pub fn backpressure_ms(statuses: &Vec<MempoolAddTransactionStatus>) -> (ms: u32)
    ensures
        ms == 0,
{
    0
}

/// Admits to the pool the transactions of a batch from `peer_id` that the
/// virtual machine accepted, each with its own gas limit and its sender's
/// account state, in their order, and answers the batch. `validations` holds
/// the outcome of the validation of each transaction, in the order of the
/// transactions. The transactions of a peer of the validator network enter
/// the pool without entering the log of ready transactions, those of any
/// other peer enter it as ready. What the pool refuses is dropped, and the
/// answer holds no sender back.
pub fn submit_transactions_to_mempool(
    mempool: &mut CoreMempool,
    validator_peers: &Vec<PeerId>,
    peer_id: PeerId,
    transactions: Vec<CheckedTransaction>,
    validations: &Vec<VmValidation>,
) -> (response: BroadcastTransactionsResponse)
    requires
        old(mempool).wf(),
        validations@.len() >= transactions@.len(),
    ensures
        final(mempool).wf(),
        final(mempool).same_settings(old(mempool)),
        final(mempool).content() == submitted(
            old(mempool).content(),
            old(mempool).capacity(),
            old(mempool).now_ms(),
            accepted_among(transactions@, validations@, transactions@.len()),
            spec_timeline_state_for(validator_peers@, peer_id),
        ),
        old(mempool).records().is_prefix_of(final(mempool).records()),
        old(mempool).ready_log().is_prefix_of(final(mempool).ready_log()),
        validator_peers@.contains(peer_id) ==> final(mempool).ready_log() == old(
            mempool,
        ).ready_log(),
        response.backpressure_ms == 0,
{
    let timeline_state = timeline_state_for(validator_peers, peer_id);
    let mut statuses: Vec<MempoolAddTransactionStatus> = Vec::new();
    let ghost before = mempool.content();
    let ghost capacity = mempool.capacity();
    let ghost now_ms = mempool.now_ms();
    let mut i: usize = 0;
    while i < transactions.len()
        invariant
            i <= transactions.len(),
            validations@.len() >= transactions@.len(),
            mempool.wf(),
            mempool.same_settings(old(mempool)),
            capacity == mempool.capacity(),
            now_ms == mempool.now_ms(),
            mempool.content() == submitted(
                before,
                capacity,
                now_ms,
                accepted_among(transactions@, validations@, i as nat),
                timeline_state,
            ),
        decreases transactions.len() - i,
    {
        let ghost so_far = accepted_among(transactions@, validations@, i as nat);
        match validations[i] {
            VmValidation::Accepted => {
                let checked = transactions[i];
                let gas_cost = checked.txn.max_gas_amount();
                let status = mempool.add_txn(
                    checked.txn,
                    gas_cost,
                    checked.sequence_number,
                    checked.balance,
                    timeline_state,
                );
                statuses.push(status);
                proof {
                    assert(so_far.push(checked).drop_last() == so_far);
                    assert(so_far.push(checked).last() == checked);
                }
            },
            _ => {},
        }
        i += 1;
    }
    proof {
        lemma_submitted(
            before,
            capacity,
            now_ms,
            accepted_among(transactions@, validations@, transactions@.len()),
            timeline_state,
        );
    }
    BroadcastTransactionsResponse { backpressure_ms: backpressure_ms(&statuses) }
}

/// Handles a batch of transactions that `peer_id` has sent: admits what the
/// virtual machine accepted, as `submit_transactions_to_mempool` does, and
/// hands back the message that answers the batch and the notification for the
/// subscribers.
pub fn process_rpc_submit_transactions_request(
    mempool: &mut CoreMempool,
    validator_peers: &Vec<PeerId>,
    peer_id: PeerId,
    transactions: Vec<CheckedTransaction>,
    validations: &Vec<VmValidation>,
) -> (answer: (MempoolSyncMsg, SharedMempoolNotification))
    requires
        old(mempool).wf(),
        validations@.len() >= transactions@.len(),
    ensures
        final(mempool).wf(),
        final(mempool).same_settings(old(mempool)),
        final(mempool).content() == submitted(
            old(mempool).content(),
            old(mempool).capacity(),
            old(mempool).now_ms(),
            accepted_among(transactions@, validations@, transactions@.len()),
            spec_timeline_state_for(validator_peers@, peer_id),
        ),
        answer.0 == MempoolSyncMsg::BroadcastTransactionsResponse(
            BroadcastTransactionsResponse { backpressure_ms: 0 },
        ),
        answer.1 == SharedMempoolNotification::NewTransactions,
{
    let response = submit_transactions_to_mempool(
        mempool,
        validator_peers,
        peer_id,
        transactions,
        validations,
    );
    (
        MempoolSyncMsg::BroadcastTransactionsResponse(response),
        SharedMempoolNotification::NewTransactions,
    )
}

/// The peers of the validator network, from whom a batch enters the pool
/// without being broadcast again: those of the configuration, or none where
/// the node is in no validator network.
pub fn validator_peers(validator_network_peers: Option<Vec<PeerId>>) -> (peers: Vec<PeerId>)
    ensures
        peers@ == match validator_network_peers {
            Some(configured) => configured@,
            None => Seq::empty(),
        },
{
    match validator_network_peers {
        Some(configured) => configured,
        None => Vec::new(),
    }
}

} // verus!
