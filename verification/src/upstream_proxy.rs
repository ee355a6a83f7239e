//! The upstream peers of a full node's admission control, each with the
//! state of its connection, and the count of those that are connected.

use crate::types::PeerId;
use vstd::prelude::*;

verus! {

/// An upstream peer and whether it is connected.
#[derive(Clone, Copy, Debug, PartialEq, Eq, Structural)]
pub struct UpstreamPeer {
    pub peer_id: PeerId,
    pub is_alive: bool,
}

/// What the network tells admission control.
#[derive(Clone, Copy, Debug, PartialEq, Eq, Structural)]
pub enum UpstreamEvent {
    /// A peer has connected.
    NewPeer(PeerId),
    /// A peer has disconnected.
    LostPeer(PeerId),
    /// Anything else.
    Other,
}

/// No peer is listed twice.
pub open spec fn distinct_upstream(peers: Seq<UpstreamPeer>) -> bool {
    forall|i: int, j: int|
        0 <= i < j < peers.len() ==> (#[trigger] peers[i]).peer_id != (#[trigger] peers[j]).peer_id
}

/// `peer_id` is listed.
pub open spec fn lists(peers: Seq<UpstreamPeer>, peer_id: PeerId) -> bool {
    exists|i: int| 0 <= i < peers.len() && (#[trigger] peers[i]).peer_id == peer_id
}

/// The peers with `peer_id`, if it is listed, marked as connected or not;
/// a peer that is not listed stays out.
pub open spec fn marked(peers: Seq<UpstreamPeer>, peer_id: PeerId, is_alive: bool) -> Seq<
    UpstreamPeer,
> {
    Seq::new(
        peers.len(),
        |i: int|
            if peers[i].peer_id == peer_id {
                UpstreamPeer { peer_id, is_alive }
            } else {
                peers[i]
            },
    )
}

/// Number of connected peers.
pub open spec fn active_peers(peers: Seq<UpstreamPeer>) -> nat
    decreases peers.len(),
{
    if peers.len() == 0 {
        0
    } else {
        active_peers(peers.drop_last()) + if peers.last().is_alive {
            1nat
        } else {
            0nat
        }
    }
}

/// The list of the configured upstream peers, each once and connected, in
/// the order in which each is first named.
pub open spec fn listed(upstream_peers: Seq<PeerId>) -> Seq<UpstreamPeer>
    decreases upstream_peers.len(),
{
    if upstream_peers.len() == 0 {
        Seq::empty()
    } else if lists(listed(upstream_peers.drop_last()), upstream_peers.last()) {
        listed(upstream_peers.drop_last())
    } else {
        listed(upstream_peers.drop_last()).push(
            UpstreamPeer { peer_id: upstream_peers.last(), is_alive: true },
        )
    }
}

/// The peers after `event`: a peer that connects or disconnects is marked
/// so if it is listed, and nothing else changes.
pub open spec fn after_event(peers: Seq<UpstreamPeer>, event: UpstreamEvent) -> Seq<UpstreamPeer> {
    match event {
        UpstreamEvent::NewPeer(peer_id) => marked(peers, peer_id, true),
        UpstreamEvent::LostPeer(peer_id) => marked(peers, peer_id, false),
        UpstreamEvent::Other => peers,
    }
}

/// The upstream peers of a node, each with the state of its connection.
pub struct PeerInfo {
    peers: Vec<UpstreamPeer>,
}

impl PeerInfo {
    /// The listed peers, in the order in which they were configured.
    pub closed spec fn peers(&self) -> Seq<UpstreamPeer> {
        self.peers@
    }

    /// No peer is listed twice.
    pub open spec fn wf(&self) -> bool {
        distinct_upstream(self.peers())
    }

    /// Lists the configured upstream peers, each once and as connected.
    pub fn new(upstream_peers: &Vec<PeerId>) -> (peer_info: Self)
        ensures
            peer_info.wf(),
            peer_info.peers() == listed(upstream_peers@),
    {
        let mut peer_info = Self { peers: Vec::new() };
        let mut i: usize = 0;
        proof {
            assert(upstream_peers@.take(0) =~= Seq::<PeerId>::empty());
        }
        while i < upstream_peers.len()
            invariant
                i <= upstream_peers.len(),
                peer_info.wf(),
                peer_info.peers() == listed(upstream_peers@.take(i as int)),
            decreases upstream_peers.len() - i,
        {
            let peer_id = upstream_peers[i];
            proof {
                let next = upstream_peers@.take(i + 1);
                assert(next.drop_last() == upstream_peers@.take(i as int));
                assert(next.last() == peer_id);
            }
            if peer_info.position(peer_id).is_none() {
                peer_info.peers.push(UpstreamPeer { peer_id, is_alive: true });
            }
            i += 1;
        }
        proof {
            assert(upstream_peers@.take(i as int) == upstream_peers@);
        }
        peer_info
    }

    /// Where `peer_id` is listed.
    fn position(&self, peer_id: PeerId) -> (at: Option<usize>)
        ensures
            match at {
                Some(i) => i < self.peers().len() && self.peers()[i as int].peer_id == peer_id,
                None => !lists(self.peers(), peer_id),
            },
    {
        let mut i: usize = 0;
        while i < self.peers.len()
            invariant
                i <= self.peers.len(),
                forall|j: int| 0 <= j < i ==> (#[trigger] self.peers@[j]).peer_id != peer_id,
            decreases self.peers.len() - i,
        {
            if self.peers[i].peer_id == peer_id {
                return Some(i);
            }
            i += 1;
        }
        None
    }

    /// Marks `peer_id` as connected or not, if it is listed.
    fn mark(&mut self, peer_id: PeerId, is_alive: bool)
        requires
            old(self).wf(),
        ensures
            final(self).wf(),
            final(self).peers() == marked(old(self).peers(), peer_id, is_alive),
    {
        let ghost before = self.peers@;
        match self.position(peer_id) {
            Some(at) => {
                self.peers.set(at, UpstreamPeer { peer_id, is_alive });
                proof {
                    assert(self.peers@ =~= marked(before, peer_id, is_alive)) by {
                        assert forall|i: int| 0 <= i < before.len() implies self.peers@[i]
                            == marked(before, peer_id, is_alive)[i] by {
                            if i != at {
                                assert(before[i].peer_id != before[at as int].peer_id);
                            }
                        }
                    }
                }
            },
            None => {
                proof {
                    assert(self.peers@ =~= marked(before, peer_id, is_alive));
                }
            },
        }
        proof {
            let after = self.peers@;
            assert forall|i: int, j: int| 0 <= i < j < after.len() implies (
            #[trigger] after[i]).peer_id != (#[trigger] after[j]).peer_id by {
                assert(before[i].peer_id != before[j].peer_id);
            }
        }
    }

    /// Whether `peer_id` is listed and connected.
    pub fn is_active(&self, peer_id: PeerId) -> (active: bool)
        requires
            self.wf(),
        ensures
            active == self.peers().contains(UpstreamPeer { peer_id, is_alive: true }),
    {
        match self.position(peer_id) {
            Some(at) => {
                let alive = self.peers[at].is_alive;
                proof {
                    if !alive {
                        let wanted = UpstreamPeer { peer_id, is_alive: true };
                        if self.peers().contains(wanted) {
                            let k = choose|k: int|
                                0 <= k < self.peers().len() && self.peers()[k] == wanted;
                            if k < at {
                                assert(self.peers()[k].peer_id != self.peers()[at as int].peer_id);
                            } else if k > at {
                                assert(self.peers()[at as int].peer_id != self.peers()[k].peer_id);
                            }
                        }
                    } else {
                        assert(self.peers()[at as int] == UpstreamPeer { peer_id, is_alive: true });
                    }
                }
                alive
            },
            None => false,
        }
    }
}

/// A peer has connected: if it is listed, it is marked as connected.
pub fn new_peer(peer_info: &mut PeerInfo, peer_id: PeerId)
    requires
        old(peer_info).wf(),
    ensures
        final(peer_info).wf(),
        final(peer_info).peers() == marked(old(peer_info).peers(), peer_id, true),
{
    peer_info.mark(peer_id, true);
}

/// A peer has disconnected: if it is listed, it is marked as not connected.
pub fn lost_peer(peer_info: &mut PeerInfo, peer_id: PeerId)
    requires
        old(peer_info).wf(),
    ensures
        final(peer_info).wf(),
        final(peer_info).peers() == marked(old(peer_info).peers(), peer_id, false),
{
    peer_info.mark(peer_id, false);
}

/// Number of connected peers.
pub fn count_active_peers(peer_info: &PeerInfo) -> (count: usize)
    ensures
        count == active_peers(peer_info.peers()),
{
    let mut count: usize = 0;
    let mut i: usize = 0;
    proof {
        assert(peer_info.peers@.take(0) =~= Seq::<UpstreamPeer>::empty());
    }
    while i < peer_info.peers.len()
        invariant
            i <= peer_info.peers.len(),
            count <= i,
            count == active_peers(peer_info.peers@.take(i as int)),
        decreases peer_info.peers.len() - i,
    {
        proof {
            let next = peer_info.peers@.take(i + 1);
            assert(next.drop_last() == peer_info.peers@.take(i as int));
            assert(next.last() == peer_info.peers@[i as int]);
        }
        if peer_info.peers[i].is_alive {
            count += 1;
        }
        i += 1;
    }
    proof {
        assert(peer_info.peers@.take(i as int) == peer_info.peers@);
    }
    count
}

/// Takes note of one event of the network. Where a peer has connected or
/// disconnected, hands back the number of connected upstream peers, which the
/// caller publishes; any other event changes nothing.
pub fn process_network_messages(peer_info: &mut PeerInfo, event: UpstreamEvent) -> (active: Option<
    usize,
>)
    requires
        old(peer_info).wf(),
    ensures
        final(peer_info).wf(),
        final(peer_info).peers() == after_event(old(peer_info).peers(), event),
        active == match event {
            UpstreamEvent::Other => None::<usize>,
            _ => Some(active_peers(final(peer_info).peers()) as usize),
        },
{
    match event {
        UpstreamEvent::NewPeer(peer_id) => {
            new_peer(peer_info, peer_id);
            Some(count_active_peers(peer_info))
        },
        UpstreamEvent::LostPeer(peer_id) => {
            lost_peer(peer_info, peer_id);
            Some(count_active_peers(peer_info))
        },
        UpstreamEvent::Other => None,
    }
}

} // verus!
