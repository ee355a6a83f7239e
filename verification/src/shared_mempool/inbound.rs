//! The decisions of the task that handles what comes in from the network and
//! from the broadcast workers: which workers to start, resume and pause, and
//! what to tell the subscribers. The task itself waits for the events and
//! carries out the actions.

use crate::shared_mempool::peer_model::{advanced, cursors_never_decrease, find, PeerRecord};
use crate::shared_mempool::peer_manager::PeerManager;
use crate::shared_mempool::{
    BroadcastTransactionsRequest, MempoolSyncMsg, PeerSyncUpdate, SecurityEvent,
    SharedMempoolNotification,
};
use crate::types::PeerNetworkId;
use vstd::prelude::*;

verus! {

/// What the network tells the mempool.
#[derive(Clone, Debug, PartialEq, Eq)]
pub enum NetworkEvent {
    /// A peer has connected.
    NewPeer(PeerNetworkId),
    /// A peer has disconnected.
    LostPeer(PeerNetworkId),
    /// A peer has sent a message and waits for the answer.
    RpcRequest(PeerNetworkId, MempoolSyncMsg),
}

/// What the inbound task waits for.
#[derive(Clone, Debug, PartialEq, Eq)]
pub enum InboundEvent {
    /// An event of the network.
    Network(NetworkEvent),
    /// The network has delivered an event that cannot be read.
    NetworkError,
    /// A worker has reported the cursor of its peer.
    SyncUpdate(PeerSyncUpdate),
    /// The worker of a peer could not be told to start again: it has gone.
    ResumeFailed(PeerNetworkId),
    /// A batch has gone through validation and into the pool.
    RequestProcessed,
}

/// What the inbound task is to do.
#[derive(Clone, Debug, PartialEq, Eq)]
pub enum InboundAction {
    /// Tell the subscribers.
    Notify(SharedMempoolNotification),
    /// Write the event to the security log.
    Report(SecurityEvent),
    /// Start a worker for the peer, with the cursor `timeline_id`.
    StartWorker { peer: PeerNetworkId, timeline_id: u64 },
    /// Tell the worker of the peer to start again.
    ResumeWorker { peer: PeerNetworkId },
    /// Tell the worker of the peer to hold.
    PauseWorker { peer: PeerNetworkId },
    /// Run the batch of the peer through validation and into the pool, and
    /// say so when it is done.
    ProcessRequest { peer: PeerNetworkId, request: BroadcastTransactionsRequest },
}

/// A batch that waits for its run through validation.
#[derive(Clone, Debug, PartialEq, Eq)]
pub struct PendingRequest {
    pub peer: PeerNetworkId,
    pub request: BroadcastTransactionsRequest,
}

/// What the inbound task has decided on an event: the peers to whom a
/// broadcast is newly scheduled, and the actions to carry out, in their
/// order.
pub struct Dispatch {
    pub scheduled: Vec<PeerNetworkId>,
    pub actions: Vec<InboundAction>,
}

/// The cursor from which a worker for `peer` starts: the one of its record,
/// or 0 where it has none.
pub open spec fn cursor_of(records: Seq<PeerRecord>, peer: PeerNetworkId) -> u64 {
    match find(records, peer) {
        Some(record) => record.state.timeline_id,
        None => 0,
    }
}

/// The peers that have a worker once a broadcast has been scheduled to each
/// of `scheduled`: a peer without a worker gets one.
pub open spec fn with_workers(workers: Seq<PeerNetworkId>, scheduled: Seq<PeerNetworkId>) -> Seq<
    PeerNetworkId,
>
    decreases scheduled.len(),
{
    if scheduled.len() == 0 {
        workers
    } else if with_workers(workers, scheduled.drop_last()).contains(scheduled.last()) {
        with_workers(workers, scheduled.drop_last())
    } else {
        with_workers(workers, scheduled.drop_last()).push(scheduled.last())
    }
}

/// The actions that schedule a broadcast to each of `scheduled` in turn: the
/// worker of a peer that has one is resumed, and a worker is started at the
/// peer's cursor for a peer that has none.
pub open spec fn scheduling(
    workers: Seq<PeerNetworkId>,
    records: Seq<PeerRecord>,
    scheduled: Seq<PeerNetworkId>,
) -> Seq<InboundAction>
    decreases scheduled.len(),
{
    if scheduled.len() == 0 {
        Seq::empty()
    } else if with_workers(workers, scheduled.drop_last()).contains(scheduled.last()) {
        scheduling(workers, records, scheduled.drop_last()).push(
            InboundAction::ResumeWorker { peer: scheduled.last() },
        )
    } else {
        scheduling(workers, records, scheduled.drop_last()).push(
            InboundAction::StartWorker {
                peer: scheduled.last(),
                timeline_id: cursor_of(records, scheduled.last()),
            },
        )
    }
}

/// The state of the inbound task: the peer registry, the peers that have a
/// worker, and the batches that run through validation or wait for it. No
/// more batches run at a time than the task was made for; those that come in
/// meanwhile wait their turn. The number of batches that wait has no bound:
/// the task never holds the network back, it is for the senders to give up
/// on a batch that is answered too late.
pub struct InboundDispatcher {
    peer_manager: PeerManager,
    workers: Vec<PeerNetworkId>,
    max_concurrent_inbound_syncs: usize,
    in_flight: usize,
    pending: Vec<PendingRequest>,
}

impl InboundDispatcher {
    /// The peer registry.
    pub closed spec fn manager(&self) -> &PeerManager {
        &self.peer_manager
    }

    /// The peers that have a worker, in the order in which the workers were
    /// started.
    pub closed spec fn workers(&self) -> Seq<PeerNetworkId> {
        self.workers@
    }

    /// The most batches that run through validation at a time.
    pub closed spec fn max_in_flight(&self) -> nat {
        self.max_concurrent_inbound_syncs as nat
    }

    /// Number of batches that run through validation.
    pub closed spec fn in_flight(&self) -> nat {
        self.in_flight as nat
    }

    /// The batches that wait for their run, the oldest first.
    pub closed spec fn pending(&self) -> Seq<PendingRequest> {
        self.pending@
    }

    /// The state is well formed: the peer registry is, no more batches run
    /// than may, and a batch waits only while as many run as may.
    pub open spec fn wf(&self) -> bool {
        &&& self.manager().wf()
        &&& self.in_flight() <= self.max_in_flight()
        &&& self.pending().len() > 0 ==> self.in_flight() == self.max_in_flight()
    }

    /// The state of a task that has started no worker and no run yet.
    pub fn new(peer_manager: PeerManager, max_concurrent_inbound_syncs: usize) -> (dispatcher:
        Self)
        requires
            peer_manager.wf(),
        ensures
            dispatcher.wf(),
            *dispatcher.manager() == peer_manager,
            dispatcher.workers() == Seq::<PeerNetworkId>::empty(),
            dispatcher.max_in_flight() == max_concurrent_inbound_syncs,
            dispatcher.in_flight() == 0,
            dispatcher.pending() == Seq::<PendingRequest>::empty(),
    {
        Self {
            peer_manager,
            workers: Vec::new(),
            max_concurrent_inbound_syncs,
            in_flight: 0,
            pending: Vec::new(),
        }
    }

    /// Number of batches that run through validation.
    pub fn runs_in_flight(&self) -> (count: usize)
        ensures
            count == self.in_flight(),
    {
        self.in_flight
    }

    /// Number of batches that wait for their run.
    pub fn runs_pending(&self) -> (count: usize)
        ensures
            count == self.pending().len(),
    {
        self.pending.len()
    }

    /// The peer registry.
    pub fn peer_manager(&self) -> (manager: &PeerManager)
        ensures
            manager == self.manager(),
    {
        &self.peer_manager
    }

    /// Whether `peer` has a worker.
    pub fn has_worker(&self, peer: PeerNetworkId) -> (has: bool)
        ensures
            has == self.workers().contains(peer),
    {
        let mut i: usize = 0;
        while i < self.workers.len()
            invariant
                i <= self.workers.len(),
                forall|j: int| 0 <= j < i ==> self.workers@[j] != peer,
            decreases self.workers.len() - i,
        {
            if self.workers[i] == peer {
                return true;
            }
            i += 1;
        }
        false
    }

    /// Schedules a broadcast to each of `scheduled` in turn and adds the
    /// actions to `actions`.
    fn schedule(&mut self, scheduled: &Vec<PeerNetworkId>, actions: &mut Vec<InboundAction>)
        requires
            old(self).manager().wf(),
        ensures
            final(self).manager() == old(self).manager(),
            final(self).max_in_flight() == old(self).max_in_flight(),
            final(self).in_flight() == old(self).in_flight(),
            final(self).pending() == old(self).pending(),
            final(self).workers() == with_workers(old(self).workers(), scheduled@),
            final(actions)@ == old(actions)@ + scheduling(
                old(self).workers(),
                old(self).manager().records(),
                scheduled@,
            ),
    {
        let ghost workers = self.workers@;
        let ghost records = self.peer_manager.records();
        let ghost head = actions@;
        let mut i: usize = 0;
        proof {
            assert(scheduled@.take(0) =~= Seq::<PeerNetworkId>::empty());
            assert(actions@ =~= head + scheduling(workers, records, scheduled@.take(0)));
        }
        while i < scheduled.len()
            invariant
                i <= scheduled.len(),
                self.peer_manager == old(self).peer_manager,
                self.max_concurrent_inbound_syncs == old(self).max_concurrent_inbound_syncs,
                self.in_flight == old(self).in_flight,
                self.pending == old(self).pending,
                self.peer_manager.wf(),
                records == self.peer_manager.records(),
                self.workers@ == with_workers(workers, scheduled@.take(i as int)),
                actions@ == head + scheduling(workers, records, scheduled@.take(i as int)),
            decreases scheduled.len() - i,
        {
            let peer = scheduled[i];
            proof {
                let next = scheduled@.take(i + 1);
                assert(next.drop_last() == scheduled@.take(i as int));
                assert(next.last() == peer);
            }
            let ghost so_far = scheduling(workers, records, scheduled@.take(i as int));
            if self.has_worker(peer) {
                actions.push(InboundAction::ResumeWorker { peer });
                proof {
                    assert(actions@ =~= head + so_far.push(InboundAction::ResumeWorker { peer }));
                }
            } else {
                let timeline_id = match self.peer_manager.peer_state(peer) {
                    Some(state) => state.timeline_id,
                    None => 0,
                };
                self.workers.push(peer);
                actions.push(InboundAction::StartWorker { peer, timeline_id });
                proof {
                    assert(actions@ =~= head + so_far.push(
                        InboundAction::StartWorker { peer, timeline_id },
                    ));
                }
            }
            i += 1;
        }
        proof {
            assert(scheduled@.take(i as int) == scheduled@);
        }
    }
}

/// What the inbound task does on `event`, with `before` its state when the
/// event came and `after` its state once `dispatch` is decided.
///
/// A new peer is handed to the peer registry; the subscribers are told of
/// the change, and a broadcast is scheduled to each peer that the registry
/// has picked. A lost peer is handed to the peer registry likewise; its
/// worker, if it has one and the peer was alive, is paused before the
/// broadcasts to newly drafted fallbacks are scheduled. A batch of
/// transactions is processed at once while fewer batches run than may, and
/// waits its turn otherwise; any other message is ignored. When a run is
/// done, the batch that has waited longest takes its place; a report of a
/// run where none is under way changes nothing. A report of a
/// worker is told to the subscribers and moves the cursor of its peer
/// forward. Where the worker of a broadcast recipient has gone, a new one is
/// started at the cursor that the registry has kept. An event of the network
/// that cannot be read is reported to the security log and changes nothing. Whatever the event, no
/// more batches run than may, and no cursor moves back.
pub open spec fn decides(
    before: &InboundDispatcher,
    after: &InboundDispatcher,
    event: InboundEvent,
    dispatch: &Dispatch,
) -> bool {
    let notified = seq![InboundAction::Notify(SharedMempoolNotification::PeerStateChange)];
    &&& after.wf()
    &&& after.manager().same_config(before.manager())
    &&& cursors_never_decrease(before.manager().records(), after.manager().records())
    &&& after.max_in_flight() == before.max_in_flight()
    &&& after.workers() == with_workers(before.workers(), dispatch.scheduled@)
    &&& match event {
        InboundEvent::Network(NetworkEvent::RpcRequest(_, _)) | InboundEvent::RequestProcessed => true,
        _ => after.in_flight() == before.in_flight() && after.pending() == before.pending(),
    }
    &&& match event {
        InboundEvent::NetworkError => {
            &&& after.manager().records() == before.manager().records()
            &&& dispatch.scheduled@.len() == 0
            &&& dispatch.actions@ == seq![
                InboundAction::Report(SecurityEvent::InvalidNetworkEventMP),
            ]
        },
        InboundEvent::Network(NetworkEvent::NewPeer(peer)) => {
            &&& after.manager().is_after_add_peer(before.manager(), peer, dispatch.scheduled@)
            &&& dispatch.actions@ == notified + scheduling(
                before.workers(),
                after.manager().records(),
                dispatch.scheduled@,
            )
        },
        InboundEvent::Network(NetworkEvent::LostPeer(peer)) => {
            &&& after.manager().is_after_disable_peer(before.manager(), peer, dispatch.scheduled@)
            &&& dispatch.actions@ == notified + (if before.workers().contains(peer) && (find(
                before.manager().records(),
                peer,
            ) matches Some(record) && record.state.is_alive) {
                seq![InboundAction::PauseWorker { peer }]
            } else {
                Seq::empty()
            }) + scheduling(before.workers(), after.manager().records(), dispatch.scheduled@)
        },
        InboundEvent::Network(NetworkEvent::RpcRequest(peer, message)) => {
            &&& after.manager().records() == before.manager().records()
            &&& dispatch.scheduled@.len() == 0
            &&& match message {
                MempoolSyncMsg::BroadcastTransactionsRequest(request) => if before.in_flight()
                    < before.max_in_flight() {
                    &&& dispatch.actions@ == seq![InboundAction::ProcessRequest { peer, request }]
                    &&& after.in_flight() == before.in_flight() + 1
                    &&& after.pending() == before.pending()
                } else {
                    &&& dispatch.actions@ == Seq::<InboundAction>::empty()
                    &&& after.in_flight() == before.in_flight()
                    &&& after.pending() == before.pending().push(PendingRequest { peer, request })
                },
                MempoolSyncMsg::BroadcastTransactionsResponse(_) => {
                    &&& dispatch.actions@ == Seq::<InboundAction>::empty()
                    &&& after.in_flight() == before.in_flight()
                    &&& after.pending() == before.pending()
                },
            }
        },
        InboundEvent::RequestProcessed => {
            &&& after.manager().records() == before.manager().records()
            &&& dispatch.scheduled@.len() == 0
            &&& if before.in_flight() == 0 {
                &&& dispatch.actions@ == Seq::<InboundAction>::empty()
                &&& after.in_flight() == 0
                &&& after.pending() == before.pending()
            } else if before.pending().len() > 0 {
                &&& dispatch.actions@ == seq![
                    InboundAction::ProcessRequest {
                        peer: before.pending()[0].peer,
                        request: before.pending()[0].request,
                    },
                ]
                &&& after.in_flight() == before.in_flight()
                &&& after.pending() == before.pending().skip(1)
            } else {
                &&& dispatch.actions@ == Seq::<InboundAction>::empty()
                &&& after.in_flight() == before.in_flight() - 1
                &&& after.pending() == before.pending()
            }
        },
        InboundEvent::SyncUpdate(update) => {
            &&& after.manager().records() == advanced(
                before.manager().records(),
                update.peer,
                update.timeline_id,
            )
            &&& dispatch.scheduled@.len() == 0
            &&& dispatch.actions@ == seq![
                InboundAction::Notify(
                    SharedMempoolNotification::SyncUpdate { worker_peer: update.peer.1 },
                ),
            ]
        },
        InboundEvent::ResumeFailed(peer) => {
            &&& after.manager().records() == before.manager().records()
            &&& dispatch.scheduled@.len() == 0
            &&& dispatch.actions@ == if before.workers().contains(peer) && (find(
                before.manager().records(),
                peer,
            ) matches Some(record) && (crate::shared_mempool::peer_model::is_alive_primary(
                before.manager().primary(),
                record,
            ) || record.picked)) {
                seq![
                    InboundAction::StartWorker {
                        peer,
                        timeline_id: cursor_of(before.manager().records(), peer),
                    },
                ]
            } else {
                Seq::empty()
            }
        },
    }
}

/// One step of the inbound task: takes an event and decides what to do.
pub fn inbound_network_task(dispatcher: &mut InboundDispatcher, event: InboundEvent) -> (dispatch:
    Dispatch)
    requires
        old(dispatcher).wf(),
    ensures
        decides(old(dispatcher), final(dispatcher), event, &dispatch),
{
    let mut actions: Vec<InboundAction> = Vec::new();
    match event {
        InboundEvent::NetworkError => {
            actions.push(InboundAction::Report(SecurityEvent::InvalidNetworkEventMP));
            proof {
                assert(actions@ =~= seq![
                    InboundAction::Report(SecurityEvent::InvalidNetworkEventMP),
                ]);
            }
            Dispatch { scheduled: Vec::new(), actions }
        },
        InboundEvent::Network(NetworkEvent::NewPeer(peer)) => {
            actions.push(InboundAction::Notify(SharedMempoolNotification::PeerStateChange));
            let ghost notified = actions@;
            proof {
                assert(notified =~= seq![
                    InboundAction::Notify(SharedMempoolNotification::PeerStateChange),
                ]);
            }
            let scheduled = dispatcher.peer_manager.add_peer(peer);
            dispatcher.schedule(&scheduled, &mut actions);
            Dispatch { scheduled, actions }
        },
        InboundEvent::Network(NetworkEvent::LostPeer(peer)) => {
            actions.push(InboundAction::Notify(SharedMempoolNotification::PeerStateChange));
            let was_alive = match dispatcher.peer_manager.peer_state(peer) {
                Some(state) => state.is_alive,
                None => false,
            };
            let ghost notified = actions@;
            if was_alive && dispatcher.has_worker(peer) {
                actions.push(InboundAction::PauseWorker { peer });
                proof {
                    assert(actions@ =~= notified + seq![InboundAction::PauseWorker { peer }]);
                }
            } else {
                proof {
                    assert(actions@ =~= notified + Seq::<InboundAction>::empty());
                }
            }
            proof {
                assert(notified =~= seq![
                    InboundAction::Notify(SharedMempoolNotification::PeerStateChange),
                ]);
            }
            let scheduled = dispatcher.peer_manager.disable_peer(peer);
            dispatcher.schedule(&scheduled, &mut actions);
            Dispatch { scheduled, actions }
        },
        InboundEvent::Network(NetworkEvent::RpcRequest(peer, message)) => {
            match message {
                MempoolSyncMsg::BroadcastTransactionsRequest(request) => {
                    if dispatcher.in_flight < dispatcher.max_concurrent_inbound_syncs {
                        dispatcher.in_flight += 1;
                        actions.push(InboundAction::ProcessRequest { peer, request });
                        proof {
                            assert(actions@ =~= seq![
                                InboundAction::ProcessRequest { peer, request },
                            ]);
                        }
                    } else {
                        dispatcher.pending.push(PendingRequest { peer, request });
                        proof {
                            assert(actions@ =~= Seq::<InboundAction>::empty());
                        }
                    }
                },
                MempoolSyncMsg::BroadcastTransactionsResponse(_) => {
                    proof {
                        assert(actions@ =~= Seq::<InboundAction>::empty());
                    }
                },
            }
            Dispatch { scheduled: Vec::new(), actions }
        },
        InboundEvent::RequestProcessed => {
            if dispatcher.in_flight == 0 {
                proof {
                    assert(actions@ =~= Seq::<InboundAction>::empty());
                }
            } else if dispatcher.pending.len() > 0 {
                let next = dispatcher.pending.remove(0);
                actions.push(InboundAction::ProcessRequest { peer: next.peer, request: next.request });
                proof {
                    assert(actions@ =~= seq![
                        InboundAction::ProcessRequest { peer: next.peer, request: next.request },
                    ]);
                    assert(dispatcher.pending@ =~= old(dispatcher).pending@.skip(1));
                }
            } else {
                dispatcher.in_flight -= 1;
                proof {
                    assert(actions@ =~= Seq::<InboundAction>::empty());
                }
            }
            Dispatch { scheduled: Vec::new(), actions }
        },
        InboundEvent::SyncUpdate(update) => {
            actions.push(
                InboundAction::Notify(
                    SharedMempoolNotification::SyncUpdate { worker_peer: update.peer.1 },
                ),
            );
            let mut reports: Vec<(PeerNetworkId, u64)> = Vec::new();
            reports.push((update.peer, update.timeline_id));
            proof {
                reveal_with_fuel(crate::shared_mempool::peer_model::advanced_by, 2);
                assert(reports@.drop_last() =~= Seq::<(PeerNetworkId, u64)>::empty());
            }
            dispatcher.peer_manager.update_peer_broadcast(reports);
            proof {
                assert(actions@ =~= seq![
                    InboundAction::Notify(
                        SharedMempoolNotification::SyncUpdate { worker_peer: update.peer.1 },
                    ),
                ]);
            }
            Dispatch { scheduled: Vec::new(), actions }
        },
        InboundEvent::ResumeFailed(peer) => {
            if dispatcher.has_worker(peer) {
                match dispatcher.peer_manager.should_broadcast(peer) {
                    Some(state) => {
                        actions.push(
                            InboundAction::StartWorker { peer, timeline_id: state.timeline_id },
                        );
                        proof {
                            assert(actions@ =~= seq![
                                InboundAction::StartWorker { peer, timeline_id: state.timeline_id },
                            ]);
                        }
                    },
                    None => {},
                }
            }
            proof {
                if actions@.len() == 0 {
                    assert(actions@ =~= Seq::<InboundAction>::empty());
                }
            }
            Dispatch { scheduled: Vec::new(), actions }
        },
    }
}

} // verus!
