use shared_mempool::core_mempool::{CoreMempool, MempoolTrait, TimelineState};
use shared_mempool::shared_mempool::peer_manager::PeerSyncState;
use shared_mempool::runtime::MempoolNetworkType;
use shared_mempool::shared_mempool::inbound::{
    inbound_network_task, InboundAction, InboundDispatcher, InboundEvent, NetworkEvent,
};
use shared_mempool::shared_mempool::peer_manager::{PeerManager, UpstreamConfig};
use shared_mempool::shared_mempool::{
    broadcast_transactions, complete_broadcast, BroadcastStep, BroadcastTransactionsRequest,
    BroadcastTransactionsResponse, MempoolSyncMsg, PeerSyncUpdate, SecurityEvent,
    SharedMempoolNotification,
};
use shared_mempool::types::{AccountAddress, PeerNetworkId, SignedTransaction};

fn peer(byte: u8) -> PeerNetworkId {
    PeerNetworkId(MempoolNetworkType::FullNode, AccountAddress::repeated(byte))
}

fn txn(sequence_number: u64) -> SignedTransaction {
    SignedTransaction { sender: AccountAddress::repeated(50), sequence_number, max_gas_amount: 10 }
}

fn dispatcher(primary: &[PeerNetworkId], fallback: &[PeerNetworkId], k: usize, runs: usize) -> InboundDispatcher {
    let config = UpstreamConfig { primary: primary.to_vec(), fallback: fallback.to_vec() };
    InboundDispatcher::new(PeerManager::new(config, k), runs)
}

fn new_peer(p: PeerNetworkId) -> InboundEvent {
    InboundEvent::Network(NetworkEvent::NewPeer(p))
}

fn lost_peer(p: PeerNetworkId) -> InboundEvent {
    InboundEvent::Network(NetworkEvent::LostPeer(p))
}

fn batch(from: PeerNetworkId, transactions: Vec<SignedTransaction>) -> (InboundEvent, BroadcastTransactionsRequest) {
    let request = BroadcastTransactionsRequest { peer_id: from.1, transactions };
    (
        InboundEvent::Network(NetworkEvent::RpcRequest(
            from,
            MempoolSyncMsg::BroadcastTransactionsRequest(request.clone()),
        )),
        request,
    )
}

fn changed() -> InboundAction {
    InboundAction::Notify(SharedMempoolNotification::PeerStateChange)
}

#[test]
fn a_new_primary_gets_a_worker_at_cursor_zero() {
    let mut task = dispatcher(&[peer(1)], &[], 1, 2);
    let dispatch = inbound_network_task(&mut task, new_peer(peer(1)));
    assert_eq!(dispatch.scheduled, vec![peer(1)]);
    assert_eq!(dispatch.actions, vec![changed(), InboundAction::StartWorker { peer: peer(1), timeline_id: 0 }]);
    assert!(task.has_worker(peer(1)));
}

#[test]
fn a_peer_that_is_not_upstream_gets_no_worker() {
    let mut task = dispatcher(&[peer(1)], &[], 1, 2);
    let dispatch = inbound_network_task(&mut task, new_peer(peer(9)));
    assert!(dispatch.scheduled.is_empty());
    assert_eq!(dispatch.actions, vec![changed()]);
    assert!(!task.has_worker(peer(9)));
    let dispatch = inbound_network_task(&mut task, lost_peer(peer(9)));
    assert_eq!(dispatch.actions, vec![changed()]);
}

#[test]
fn a_live_primary_that_connects_again_is_resumed() {
    let mut task = dispatcher(&[peer(1)], &[], 1, 2);
    inbound_network_task(&mut task, new_peer(peer(1)));
    let dispatch = inbound_network_task(&mut task, new_peer(peer(1)));
    assert_eq!(dispatch.actions, vec![changed(), InboundAction::ResumeWorker { peer: peer(1) }]);
}

#[test]
fn a_lost_peer_pauses_its_worker_once() {
    let mut task = dispatcher(&[peer(1)], &[], 1, 2);
    inbound_network_task(&mut task, new_peer(peer(1)));
    let dispatch = inbound_network_task(&mut task, lost_peer(peer(1)));
    assert_eq!(dispatch.actions, vec![changed(), InboundAction::PauseWorker { peer: peer(1) }]);
    let again = inbound_network_task(&mut task, lost_peer(peer(1)));
    assert_eq!(again.actions, vec![changed()]);
    assert!(task.has_worker(peer(1)));
}

#[test]
fn a_sync_update_moves_the_cursor_and_tells_the_subscribers() {
    let mut task = dispatcher(&[peer(1)], &[], 1, 2);
    inbound_network_task(&mut task, new_peer(peer(1)));
    let dispatch = inbound_network_task(
        &mut task,
        InboundEvent::SyncUpdate(PeerSyncUpdate { peer: peer(1), timeline_id: 4 }),
    );
    assert_eq!(
        dispatch.actions,
        vec![InboundAction::Notify(SharedMempoolNotification::SyncUpdate { worker_peer: peer(1).1 })]
    );
    assert_eq!(
        task.peer_manager().peer_state(peer(1)),
        Some(PeerSyncState { timeline_id: 4, is_alive: true })
    );
    let unknown = inbound_network_task(
        &mut task,
        InboundEvent::SyncUpdate(PeerSyncUpdate { peer: peer(9), timeline_id: 4 }),
    );
    assert_eq!(
        unknown.actions,
        vec![InboundAction::Notify(SharedMempoolNotification::SyncUpdate { worker_peer: peer(9).1 })]
    );
    assert_eq!(task.peer_manager().peer_state(peer(9)), None);
}

#[test]
fn a_worker_that_has_gone_is_started_anew_at_the_kept_cursor() {
    let mut task = dispatcher(&[peer(1)], &[peer(2)], 1, 2);
    inbound_network_task(&mut task, new_peer(peer(1)));
    inbound_network_task(&mut task, InboundEvent::SyncUpdate(PeerSyncUpdate { peer: peer(1), timeline_id: 6 }));
    let dispatch = inbound_network_task(&mut task, InboundEvent::ResumeFailed(peer(1)));
    assert_eq!(dispatch.actions, vec![InboundAction::StartWorker { peer: peer(1), timeline_id: 6 }]);
    assert!(inbound_network_task(&mut task, InboundEvent::ResumeFailed(peer(2))).actions.is_empty());
    inbound_network_task(&mut task, lost_peer(peer(1)));
    assert!(inbound_network_task(&mut task, InboundEvent::ResumeFailed(peer(1))).actions.is_empty());
}

#[test]
fn peer_loss_resumes_without_sending_twice() {
    let mut pool = CoreMempool::new(100, 1_000);
    let mut task = dispatcher(&[peer(1)], &[], 1, 2);
    let started = inbound_network_task(&mut task, new_peer(peer(1)));
    assert_eq!(started.actions[1], InboundAction::StartWorker { peer: peer(1), timeline_id: 0 });
    let mut cursor = 0;

    pool.add_txn(txn(0), 10, 0, 100, TimelineState::Ready);
    pool.add_txn(txn(1), 10, 0, 100, TimelineState::Ready);
    let step = broadcast_transactions(&mut pool, cursor, peer(1).1, 10);
    assert_eq!(
        step,
        BroadcastStep::Send {
            request: BroadcastTransactionsRequest { peer_id: peer(1).1, transactions: vec![txn(0), txn(1)] },
            new_timeline_id: 2,
        }
    );
    let outcome = complete_broadcast(cursor, 2, peer(1), true);
    cursor = outcome.timeline_id;
    inbound_network_task(&mut task, InboundEvent::SyncUpdate(outcome.update.unwrap()));
    assert_eq!(cursor, 2);

    let lost = inbound_network_task(&mut task, lost_peer(peer(1)));
    assert_eq!(lost.actions, vec![changed(), InboundAction::PauseWorker { peer: peer(1) }]);
    assert_eq!(
        task.peer_manager().peer_state(peer(1)),
        Some(PeerSyncState { timeline_id: 2, is_alive: false })
    );
    assert_eq!(task.peer_manager().should_broadcast(peer(1)), None);

    pool.add_txn(txn(2), 10, 0, 100, TimelineState::Ready);

    let back = inbound_network_task(&mut task, new_peer(peer(1)));
    assert_eq!(back.actions, vec![changed(), InboundAction::ResumeWorker { peer: peer(1) }]);
    assert_eq!(
        task.peer_manager().should_broadcast(peer(1)),
        Some(PeerSyncState { timeline_id: 2, is_alive: true })
    );
    let step = broadcast_transactions(&mut pool, cursor, peer(1).1, 10);
    assert_eq!(
        step,
        BroadcastStep::Send {
            request: BroadcastTransactionsRequest { peer_id: peer(1).1, transactions: vec![txn(2)] },
            new_timeline_id: 3,
        }
    );
    cursor = complete_broadcast(cursor, 3, peer(1), true).timeline_id;
    assert_eq!(cursor, 3);
}

#[test]
fn a_drafted_fallback_gets_a_worker_when_a_primary_is_lost() {
    let mut task = dispatcher(&[peer(1)], &[peer(2)], 1, 2);
    inbound_network_task(&mut task, new_peer(peer(1)));
    let fallback = inbound_network_task(&mut task, new_peer(peer(2)));
    assert_eq!(fallback.actions, vec![changed()]);
    assert!(!task.has_worker(peer(2)));
    let lost = inbound_network_task(&mut task, lost_peer(peer(1)));
    assert_eq!(lost.scheduled, vec![peer(2)]);
    assert_eq!(
        lost.actions,
        vec![
            changed(),
            InboundAction::PauseWorker { peer: peer(1) },
            InboundAction::StartWorker { peer: peer(2), timeline_id: 0 },
        ]
    );
    assert!(task.has_worker(peer(2)));
}

#[test]
fn a_network_error_is_reported_and_changes_nothing() {
    let mut task = dispatcher(&[peer(1)], &[], 1, 2);
    inbound_network_task(&mut task, new_peer(peer(1)));
    let dispatch = inbound_network_task(&mut task, InboundEvent::NetworkError);
    assert!(dispatch.scheduled.is_empty());
    assert_eq!(dispatch.actions, vec![InboundAction::Report(SecurityEvent::InvalidNetworkEventMP)]);
    assert_eq!(
        task.peer_manager().should_broadcast(peer(1)),
        Some(PeerSyncState { timeline_id: 0, is_alive: true })
    );
    assert!(task.has_worker(peer(1)));
    assert_eq!(task.runs_in_flight(), 0);
    assert_eq!(task.runs_pending(), 0);
}

#[test]
fn a_response_that_comes_as_a_request_is_ignored() {
    let mut task = dispatcher(&[peer(1)], &[], 1, 2);
    let event = InboundEvent::Network(NetworkEvent::RpcRequest(
        peer(1),
        MempoolSyncMsg::BroadcastTransactionsResponse(BroadcastTransactionsResponse { backpressure_ms: 0 }),
    ));
    let dispatch = inbound_network_task(&mut task, event);
    assert!(dispatch.actions.is_empty());
    assert_eq!(task.runs_in_flight(), 0);
}

#[test]
fn bounded_inbound_runs_two_batches_at_a_time() {
    let mut task = dispatcher(&[peer(1)], &[], 1, 2);
    let mut started = Vec::new();
    let mut requests = Vec::new();
    for n in 0..5u64 {
        let (event, request) = batch(peer(3), vec![txn(n)]);
        requests.push(request);
        let dispatch = inbound_network_task(&mut task, event);
        started.extend(dispatch.actions);
        assert!(task.runs_in_flight() <= 2);
    }
    assert_eq!(started.len(), 2);
    assert_eq!(task.runs_in_flight(), 2);
    assert_eq!(task.runs_pending(), 3);
    for _ in 0..5 {
        let dispatch = inbound_network_task(&mut task, InboundEvent::RequestProcessed);
        started.extend(dispatch.actions);
        assert!(task.runs_in_flight() <= 2);
    }
    assert_eq!(task.runs_in_flight(), 0);
    assert_eq!(task.runs_pending(), 0);
    let expected: Vec<InboundAction> = requests
        .into_iter()
        .map(|request| InboundAction::ProcessRequest { peer: peer(3), request })
        .collect();
    assert_eq!(started, expected);
}

#[test]
fn a_run_that_is_reported_twice_frees_no_second_place() {
    let mut task = dispatcher(&[peer(1)], &[], 1, 1);
    let (event, _) = batch(peer(3), vec![txn(0)]);
    assert_eq!(inbound_network_task(&mut task, event).actions.len(), 1);
    inbound_network_task(&mut task, InboundEvent::RequestProcessed);
    inbound_network_task(&mut task, InboundEvent::RequestProcessed);
    assert_eq!(task.runs_in_flight(), 0);
    let (event, _) = batch(peer(3), vec![txn(1)]);
    assert_eq!(inbound_network_task(&mut task, event).actions.len(), 1);
    let (event, _) = batch(peer(3), vec![txn(2)]);
    assert!(inbound_network_task(&mut task, event).actions.is_empty());
    assert_eq!(task.runs_in_flight(), 1);
    assert_eq!(task.runs_pending(), 1);
}

#[test]
fn no_batch_runs_where_none_may() {
    let mut task = dispatcher(&[peer(1)], &[], 1, 0);
    let (event, _) = batch(peer(3), vec![txn(0)]);
    assert!(inbound_network_task(&mut task, event).actions.is_empty());
    assert_eq!(task.runs_in_flight(), 0);
    assert_eq!(task.runs_pending(), 1);
    assert!(inbound_network_task(&mut task, InboundEvent::RequestProcessed).actions.is_empty());
    assert_eq!(task.runs_in_flight(), 0);
    assert_eq!(task.runs_pending(), 1);
}
