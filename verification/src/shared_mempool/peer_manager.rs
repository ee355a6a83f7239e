//! Tracks the liveness and the broadcast cursor of each upstream peer and
//! selects the peers that receive broadcasts: every alive primary, and as many
//! randomly drafted fallback peers as the recipient quota asks for.

use crate::shared_mempool::peer_model::{
    advanced, advanced_by, alive_peers, alive_primaries, candidate_peers, cursors_kept,
    cursors_never_decrease, fallback_part, count_where, distinct_peers, drafted, fills_shortfall, find,
    is_alive_primary, is_candidate, is_selection_of, lemma_candidate_peers, lemma_count_agree,
    lemma_drafted_count, lemma_drafted_keeps, lemma_find, lemma_find_at, lemma_recipients_bound,
    lemma_recipients_cover, lemma_selection, picked_fallbacks, picks_are_alive_fallbacks,
    quota_met, recipients, released, scheduled, shortfall, with_alive, with_dead, PeerRecord,
};
use crate::types::PeerNetworkId;
use rand::seq::IteratorRandom;
use vstd::prelude::*;

verus! {

/// State of the last sync with a peer: `timeline_id` is the position in the
/// log of ready transactions up to which the peer has acknowledged them, and
/// `is_alive` tells whether the connection is healthy.
#[derive(Clone, Copy, Debug, PartialEq, Eq, Structural)]
pub struct PeerSyncState {
    pub timeline_id: u64,
    pub is_alive: bool,
}

/// Static classification of the upstream peers: primaries always receive
/// broadcasts while alive, fallbacks are drafted to fill the quota.
pub struct UpstreamConfig {
    pub primary: Vec<PeerNetworkId>,
    pub fallback: Vec<PeerNetworkId>,
}

/// Whether `peers` holds `peer`.
fn holds_peer(peers: &Vec<PeerNetworkId>, peer: PeerNetworkId) -> (held: bool)
    ensures
        held == peers@.contains(peer),
{
    let mut i: usize = 0;
    while i < peers.len()
        invariant
            i <= peers.len(),
            forall|j: int| 0 <= j < i ==> peers@[j] != peer,
        decreases peers.len() - i,
    {
        if peers[i] == peer {
            return true;
        }
        i += 1;
    }
    false
}

impl UpstreamConfig {
    /// `peer` is a primary or a fallback upstream peer.
    pub open spec fn spec_is_upstream_peer(&self, peer: PeerNetworkId) -> bool {
        self.primary@.contains(peer) || self.fallback@.contains(peer)
    }

    /// `peer` is a primary upstream peer.
    pub open spec fn spec_is_primary_upstream_peer(&self, peer: PeerNetworkId) -> bool {
        self.primary@.contains(peer)
    }

    /// Whether `peer` is a primary or a fallback upstream peer.
    pub fn is_upstream_peer(&self, peer: PeerNetworkId) -> (upstream: bool)
        ensures
            upstream == self.spec_is_upstream_peer(peer),
    {
        holds_peer(&self.primary, peer) || holds_peer(&self.fallback, peer)
    }

    /// Whether `peer` is a primary upstream peer.
    pub fn is_primary_upstream_peer(&self, peer: PeerNetworkId) -> (primary: bool)
        ensures
            primary == self.spec_is_primary_upstream_peer(peer),
    {
        holds_peer(&self.primary, peer)
    }
}

/// Chooses `amount` of `candidates` at random with `rand`'s
/// `IteratorRandom::choose_multiple`, fed by `rand::thread_rng`. Nothing is
/// proved of this function: the contract claims what holds of every outcome
/// of the reservoir sampling that `rand` does, namely that the result has
/// `amount` items, each taken from a position of `candidates` of its own.
/// Which positions those are is left open. `amount` is at most the number
/// of candidates, so that the buffer which `rand` reserves is no larger than
/// `candidates` itself. The thread's generator is seeded by the system and
/// fails only where the system has no source of randomness.
#[verifier::external_body]
fn choose_multiple(candidates: Vec<PeerNetworkId>, amount: usize) -> (chosen: Vec<PeerNetworkId>)
    requires
        amount <= candidates@.len(),
    ensures
        chosen@.len() == amount,
        is_selection_of(chosen@, candidates@),
{
    candidates.into_iter().choose_multiple(&mut rand::thread_rng(), amount)
}

/// The peer registry of the shared mempool.
pub struct PeerManager {
    upstream_config: UpstreamConfig,
    peer_info: Vec<PeerRecord>,
    min_broadcast_recipient_count: usize,
}

impl PeerManager {
    /// The tracked peers, in the order in which they were first seen.
    pub closed spec fn records(&self) -> Seq<PeerRecord> {
        self.peer_info@
    }

    /// The primary upstream peers.
    pub closed spec fn primary(&self) -> Seq<PeerNetworkId> {
        self.upstream_config.primary@
    }

    /// The fallback upstream peers.
    pub closed spec fn fallback(&self) -> Seq<PeerNetworkId> {
        self.upstream_config.fallback@
    }

    /// The least number of broadcast recipients to keep while enough peers
    /// are alive.
    pub closed spec fn min_recipients(&self) -> nat {
        self.min_broadcast_recipient_count as nat
    }

    /// `peer` is a primary or a fallback upstream peer.
    pub open spec fn spec_is_upstream_peer(&self, peer: PeerNetworkId) -> bool {
        self.primary().contains(peer) || self.fallback().contains(peer)
    }

    /// Every tracked peer is an upstream peer.
    pub open spec fn tracks_upstream_only(&self) -> bool {
        forall|i: int|
            0 <= i < self.records().len() ==> self.spec_is_upstream_peer(
                (#[trigger] self.records()[i]).peer,
            )
    }

    /// The registry is consistent but for the recipient quota: no peer is
    /// tracked twice, every tracked peer is an upstream peer, and apart from
    /// `changed`, whose liveness has just changed, only alive peers that are
    /// no primaries are drafted.
    pub open spec fn consistent_but_for(&self, changed: PeerNetworkId) -> bool {
        &&& distinct_peers(self.records())
        &&& self.tracks_upstream_only()
        &&& picks_are_alive_fallbacks(released(self.records(), changed), self.primary())
    }

    /// The registry is well formed: no peer is tracked twice, every tracked
    /// peer is an upstream peer, only alive peers that are no primaries are
    /// drafted, and the recipient quota is met.
    pub open spec fn wf(&self) -> bool {
        &&& distinct_peers(self.records())
        &&& self.tracks_upstream_only()
        &&& picks_are_alive_fallbacks(self.records(), self.primary())
        &&& quota_met(self.records(), self.primary(), self.min_recipients())
    }

    /// The same static configuration as `other`.
    pub open spec fn same_config(&self, other: &PeerManager) -> bool {
        &&& self.primary() == other.primary()
        &&& self.fallback() == other.fallback()
        &&& self.min_recipients() == other.min_recipients()
    }

    /// The registry is what `before` has become once `peer` has connected,
    /// and `picked` are the peers to whom a broadcast is then scheduled. A
    /// peer that is no upstream peer changes nothing. An upstream peer is
    /// tracked from cursor 0 if it was not tracked yet, and alive. Where the
    /// recipients are then fewer than the quota, the shortfall is drafted
    /// from the alive fallback peers. A broadcast is scheduled to `peer`
    /// itself where it is a primary, then to the newly drafted fallbacks. No
    /// cursor moves.
    pub open spec fn is_after_add_peer(
        &self,
        before: &PeerManager,
        peer: PeerNetworkId,
        picked: Seq<PeerNetworkId>,
    ) -> bool {
        &&& self.wf()
        &&& self.same_config(before)
        &&& cursors_kept(before.records(), self.records())
        &&& !before.spec_is_upstream_peer(peer) ==> self.records() == before.records()
            && picked.len() == 0
        &&& before.spec_is_upstream_peer(peer) ==> ({
            let base = with_alive(before.records(), peer);
            let chosen = fallback_part(base, before.primary(), peer, picked);
            &&& picked == scheduled(base, before.primary(), peer, chosen)
            &&& fills_shortfall(base, before.primary(), before.min_recipients(), chosen)
            &&& self.records() == drafted(base, before.primary(), chosen)
        })
    }

    /// The registry is what `before` has become once `peer` has
    /// disconnected, and `picked` are the peers to whom a broadcast is then
    /// scheduled. A peer that is not tracked changes nothing. A tracked peer
    /// is dead, keeps its cursor and is no drafted fallback any more. Where
    /// the recipients are then fewer than the quota, the shortfall is drafted
    /// from the alive fallback peers, and a broadcast is scheduled to them.
    pub open spec fn is_after_disable_peer(
        &self,
        before: &PeerManager,
        peer: PeerNetworkId,
        picked: Seq<PeerNetworkId>,
    ) -> bool {
        &&& self.wf()
        &&& self.same_config(before)
        &&& cursors_kept(before.records(), self.records())
        &&& find(before.records(), peer) is None ==> self.records() == before.records()
            && picked.len() == 0
        &&& find(before.records(), peer) is Some ==> ({
            let base = released(with_dead(before.records(), peer), peer);
            &&& fills_shortfall(base, before.primary(), before.min_recipients(), picked)
            &&& self.records() == drafted(base, before.primary(), picked)
        })
    }

    /// A registry that tracks no peer yet.
    pub fn new(upstream_config: UpstreamConfig, min_broadcast_recipient_count: usize) -> (manager:
        Self)
        ensures
            manager.wf(),
            manager.records() == Seq::<PeerRecord>::empty(),
            manager.primary() == upstream_config.primary@,
            manager.fallback() == upstream_config.fallback@,
            manager.min_recipients() == min_broadcast_recipient_count,
    {
        let manager = Self {
            upstream_config,
            peer_info: Vec::new(),
            min_broadcast_recipient_count,
        };
        proof {
            reveal_with_fuel(count_where, 2);
            assert(manager.records().len() == 0);
        }
        manager
    }

    /// Whether `peer` is a primary or a fallback upstream peer.
    pub fn is_upstream_peer(&self, peer: PeerNetworkId) -> (upstream: bool)
        ensures
            upstream == self.spec_is_upstream_peer(peer),
    {
        self.upstream_config.is_upstream_peer(peer)
    }

    /// Whether `peer` is a primary upstream peer.
    pub fn is_primary_upstream_peer(&self, peer: PeerNetworkId) -> (primary: bool)
        ensures
            primary == self.primary().contains(peer),
    {
        self.upstream_config.is_primary_upstream_peer(peer)
    }

    /// Where the record of `peer` stands.
    fn position(&self, peer: PeerNetworkId) -> (at: Option<usize>)
        ensures
            match at {
                Some(i) => i < self.records().len() && self.records()[i as int].peer == peer,
                None => forall|i: int|
                    0 <= i < self.records().len() ==> (#[trigger] self.records()[i]).peer != peer,
            },
    {
        let mut i: usize = 0;
        while i < self.peer_info.len()
            invariant
                i <= self.peer_info.len(),
                forall|j: int| 0 <= j < i ==> (#[trigger] self.peer_info@[j]).peer != peer,
            decreases self.peer_info.len() - i,
        {
            if self.peer_info[i].peer == peer {
                return Some(i);
            }
            i += 1;
        }
        None
    }

    /// The sync state of `peer`, if it is tracked.
    pub fn peer_state(&self, peer: PeerNetworkId) -> (state: Option<PeerSyncState>)
        requires
            self.wf(),
        ensures
            state == match find(self.records(), peer) {
                Some(record) => Some(record.state),
                None => None,
            },
    {
        proof {
            lemma_find(self.records(), peer);
        }
        match self.position(peer) {
            Some(i) => {
                proof {
                    lemma_find_at(self.records(), i as int);
                }
                Some(self.peer_info[i].state)
            },
            None => None,
        }
    }

    /// Number of broadcast recipients: alive primaries and drafted fallbacks.
    fn count_recipients(&self) -> (count: usize)
        requires
            picks_are_alive_fallbacks(self.records(), self.primary()),
        ensures
            count == recipients(self.records(), self.primary()),
    {
        let mut count: usize = 0;
        let mut i: usize = 0;
        while i < self.peer_info.len()
            invariant
                i <= self.peer_info.len(),
                count <= i,
                count == recipients(self.peer_info@.take(i as int), self.primary()),
                picks_are_alive_fallbacks(self.records(), self.primary()),
            decreases self.peer_info.len() - i,
        {
            let record = self.peer_info[i];
            let alive_primary = self.upstream_config.is_primary_upstream_peer(record.peer)
                && record.state.is_alive;
            proof {
                let next = self.peer_info@.take(i + 1);
                assert(next.drop_last() == self.peer_info@.take(i as int));
                assert(next.last() == record);
                assert(self.records()[i as int] == record);
            }
            if alive_primary || record.picked {
                count += 1;
            }
            i += 1;
        }
        proof {
            assert(self.peer_info@.take(i as int) == self.peer_info@);
        }
        count
    }

    /// The peers that may still be drafted, in the order of their records.
    fn fallback_candidates(&self) -> (candidates: Vec<PeerNetworkId>)
        ensures
            candidates@ == candidate_peers(self.records(), self.primary()),
    {
        let mut candidates: Vec<PeerNetworkId> = Vec::new();
        let mut i: usize = 0;
        while i < self.peer_info.len()
            invariant
                i <= self.peer_info.len(),
                candidates@ == candidate_peers(self.peer_info@.take(i as int), self.primary()),
            decreases self.peer_info.len() - i,
        {
            let record = self.peer_info[i];
            proof {
                let next = self.peer_info@.take(i + 1);
                assert(next.drop_last() == self.peer_info@.take(i as int));
                assert(next.last() == record);
            }
            if !self.upstream_config.is_primary_upstream_peer(record.peer) && !record.picked
                && record.state.is_alive {
                candidates.push(record.peer);
            }
            i += 1;
        }
        proof {
            assert(self.peer_info@.take(i as int) == self.peer_info@);
        }
        candidates
    }

    /// Drafts every candidate among `chosen`.
    fn draft(&mut self, chosen: &Vec<PeerNetworkId>)
        ensures
            final(self).same_config(old(self)),
            final(self).records() == drafted(old(self).records(), old(self).primary(), chosen@),
    {
        let ghost before = self.peer_info@;
        let ghost primary = self.upstream_config.primary@;
        let mut i: usize = 0;
        while i < self.peer_info.len()
            invariant
                i <= self.peer_info.len(),
                self.peer_info@.len() == before.len(),
                self.upstream_config == old(self).upstream_config,
                self.min_broadcast_recipient_count == old(self).min_broadcast_recipient_count,
                primary == self.upstream_config.primary@,
                forall|j: int|
                    0 <= j < i ==> #[trigger] self.peer_info@[j] == drafted(
                        before,
                        primary,
                        chosen@,
                    )[j],
                forall|j: int| i <= j < before.len() ==> #[trigger] self.peer_info@[j] == before[j],
            decreases self.peer_info.len() - i,
        {
            let record = self.peer_info[i];
            if !self.upstream_config.is_primary_upstream_peer(record.peer) && !record.picked
                && record.state.is_alive && holds_peer(chosen, record.peer) {
                self.peer_info.set(i, PeerRecord { picked: true, ..record });
            }
            i += 1;
        }
        proof {
            assert(self.peer_info@ =~= drafted(before, primary, chosen@));
        }
    }

    /// Drafts every candidate among `chosen` as a fallback recipient: each
    /// peer of `chosen` that is tracked, alive, no primary and not drafted yet.
    pub fn draft_fallback_peers(&mut self, chosen: &Vec<PeerNetworkId>)
        requires
            old(self).wf(),
        ensures
            final(self).wf(),
            final(self).same_config(old(self)),
            final(self).records() == drafted(old(self).records(), old(self).primary(), chosen@),
            cursors_kept(old(self).records(), final(self).records()),
    {
        self.draft(chosen);
        proof {
            lemma_drafted_keeps(old(self).records(), old(self).primary(), chosen@);
        }
    }

    /// Reconsiders the broadcast recipients after the liveness of `peer` has
    /// changed. `peer` leaves the drafted fallbacks if its connection is down.
    /// Where the alive primaries and the drafted fallbacks are then fewer than
    /// the quota, the shortfall is drafted at random from the alive fallback
    /// peers, or all of these where they are no more than the shortfall.
    /// Returns the peers to whom a broadcast is to be scheduled: `peer` where
    /// it is an alive primary, then the newly drafted fallbacks.
    fn update_picked_peers(&mut self, peer: PeerNetworkId) -> (picked: Vec<PeerNetworkId>)
        requires
            old(self).consistent_but_for(peer),
            find(old(self).records(), peer) is Some,
        ensures
            final(self).wf(),
            final(self).same_config(old(self)),
            ({
                let base = released(old(self).records(), peer);
                let chosen = fallback_part(base, old(self).primary(), peer, picked@);
                &&& picked@ == scheduled(base, old(self).primary(), peer, chosen)
                &&& fills_shortfall(base, old(self).primary(), old(self).min_recipients(), chosen)
                &&& final(self).records() == drafted(base, old(self).primary(), chosen)
            }),
    {
        let ghost primary = self.primary();
        let ghost base = released(self.records(), peer);
        let mut picked: Vec<PeerNetworkId> = Vec::new();
        proof {
            lemma_find(self.records(), peer);
        }
        let at = match self.position(peer) {
            Some(at) => at,
            None => {
                proof {
                    let record = find(self.records(), peer).unwrap();
                    let i = choose|i: int|
                        0 <= i < self.records().len() && self.records()[i] == record;
                    assert(self.records()[i].peer == peer);
                }
                return picked;
            },
        };
        let record = self.peer_info[at];
        proof {
            lemma_find_at(self.records(), at as int);
        }
        if self.upstream_config.is_primary_upstream_peer(peer) && record.state.is_alive {
            picked.push(peer);
        }
        if !record.state.is_alive {
            self.peer_info.set(at, PeerRecord { picked: false, ..record });
        }
        proof {
            assert(self.records() =~= base) by {
                assert forall|i: int| 0 <= i < base.len() implies self.records()[i] == base[i] by {
                    if i != at {
                        assert(old(self).records()[i].peer != old(self).records()[at as int].peer);
                    }
                }
            }
            assert(distinct_peers(base)) by {
                assert forall|i: int, j: int| 0 <= i < j < base.len() implies (
                #[trigger] base[i]).peer != (#[trigger] base[j]).peer by {
                    assert(old(self).records()[i].peer != old(self).records()[j].peer);
                }
            }
            lemma_find_at(base, at as int);
            lemma_recipients_bound(base, primary);
            lemma_candidate_peers(base, primary);
        }
        let count = self.count_recipients();
        let ghost chosen_seq: Seq<PeerNetworkId>;
        if count < self.min_broadcast_recipient_count {
            let need = self.min_broadcast_recipient_count - count;
            let candidates = self.fallback_candidates();
            let chosen = if need >= candidates.len() {
                candidates
            } else {
                choose_multiple(candidates, need)
            };
            proof {
                chosen_seq = chosen@;
                assert(need == shortfall(base, primary, self.min_recipients()));
                assert(fills_shortfall(base, primary, self.min_recipients(), chosen_seq));
            }
            self.draft(&chosen);
            let ghost head = picked@;
            let mut i: usize = 0;
            while i < chosen.len()
                invariant
                    i <= chosen.len(),
                    picked@ == head + chosen@.take(i as int),
                decreases chosen.len() - i,
            {
                picked.push(chosen[i]);
                proof {
                    assert(chosen@.take(i + 1) == chosen@.take(i as int).push(chosen@[i as int]));
                }
                i += 1;
            }
            proof {
                assert(chosen@.take(i as int) == chosen@);
            }
        } else {
            proof {
                chosen_seq = Seq::empty();
                let nowhere = Seq::<int>::empty();
                assert(nowhere.len() == chosen_seq.len() && nowhere.no_duplicates() && forall|
                    i: int,
                |
                    0 <= i < chosen_seq.len() ==> 0 <= #[trigger] nowhere[i] < candidate_peers(
                        base,
                        primary,
                    ).len() && candidate_peers(base, primary)[nowhere[i]] == chosen_seq[i]);
                assert(is_selection_of(chosen_seq, candidate_peers(base, primary)));
                assert(shortfall(base, primary, self.min_recipients()) == 0);
                if candidate_peers(base, primary).len() == 0 {
                    assert(chosen_seq =~= candidate_peers(base, primary));
                }
                assert(fills_shortfall(base, primary, self.min_recipients(), chosen_seq));
                assert(self.records() =~= drafted(base, primary, chosen_seq));
            }
        }
        proof {
            let after = drafted(base, primary, chosen_seq);
            let candidates = candidate_peers(base, primary);
            assert(self.records() == after);
            if is_alive_primary(primary, base[at as int]) {
                assert(picked@ == seq![peer] + chosen_seq);
                assert(picked@.skip(1) =~= chosen_seq);
            } else {
                assert(picked@ =~= chosen_seq);
            }
            assert(fills_shortfall(base, primary, self.min_recipients(), chosen_seq));
            lemma_drafted_keeps(base, primary, chosen_seq);
            assert(self.tracks_upstream_only()) by {
                assert forall|i: int| 0 <= i < self.records().len() implies self.spec_is_upstream_peer(
                    (#[trigger] self.records()[i]).peer,
                ) by {
                    assert(old(self).spec_is_upstream_peer(old(self).records()[i].peer));
                }
            }
            if shortfall(base, primary, self.min_recipients()) >= candidates.len() {
                assert forall|i: int|
                    0 <= i < after.len() && (
                    #[trigger] after[i]).state.is_alive implies is_alive_primary(primary, after[i])
                    || after[i].picked by {
                    if is_candidate(primary, base[i]) {
                        assert(candidates.contains(base[i].peer));
                    }
                }
                lemma_recipients_cover(after, primary);
            } else {
                lemma_selection(chosen_seq, candidates);
                lemma_drafted_count(base, primary, chosen_seq);
            }
        }
        picked
    }

    /// A peer has connected. Only an upstream peer is admitted: it is
    /// tracked from cursor 0 if it was not tracked yet, marked alive, and the
    /// broadcast recipients are reconsidered. Returns the peers to whom a
    /// broadcast is to be scheduled: `peer` itself where it is a primary, then
    /// the fallbacks that were drafted to fill the quota.
    pub fn add_peer(&mut self, peer: PeerNetworkId) -> (picked: Vec<PeerNetworkId>)
        requires
            old(self).wf(),
        ensures
            final(self).is_after_add_peer(old(self), peer, picked@),
    {
        if !self.is_upstream_peer(peer) {
            return Vec::new();
        }
        let ghost before = self.records();
        let ghost base = with_alive(before, peer);
        proof {
            lemma_find(before, peer);
        }
        match self.position(peer) {
            Some(at) => {
                let record = self.peer_info[at];
                proof {
                    lemma_find_at(before, at as int);
                }
                self.peer_info.set(
                    at,
                    PeerRecord {
                        state: PeerSyncState { is_alive: true, ..record.state },
                        ..record
                    },
                );
                proof {
                    assert(self.records() =~= base) by {
                        assert forall|i: int| 0 <= i < base.len() implies self.records()[i]
                            == base[i] by {
                            if i != at {
                                assert(before[i].peer != before[at as int].peer);
                            }
                        }
                    }
                    lemma_find_at(self.records(), at as int);
                }
            },
            None => {
                self.peer_info.push(
                    PeerRecord {
                        peer,
                        state: PeerSyncState { timeline_id: 0, is_alive: true },
                        picked: false,
                    },
                );
                proof {
                    assert(self.records() =~= base);
                    lemma_find_at(self.records(), before.len() as int);
                }
            },
        }
        proof {
            assert(released(base, peer) =~= base) by {
                assert forall|i: int| 0 <= i < base.len() implies released(base, peer)[i]
                    == base[i] by {
                    if base[i].peer == peer {
                        if i < before.len() {
                            assert(before[i].peer == peer);
                        }
                    }
                }
            }
            assert(picks_are_alive_fallbacks(base, self.primary())) by {
                assert forall|i: int|
                    0 <= i < base.len() && (#[trigger] base[i]).picked implies base[i].state.is_alive
                    && !self.primary().contains(base[i].peer) by {
                    assert(before[i].picked);
                }
            }
            assert(self.tracks_upstream_only()) by {
                assert forall|i: int| 0 <= i < base.len() implies self.spec_is_upstream_peer(
                    (#[trigger] base[i]).peer,
                ) by {
                    if i < before.len() {
                        assert(old(self).spec_is_upstream_peer(before[i].peer));
                    }
                }
            }
        }
        let picked = self.update_picked_peers(peer);
        proof {
            lemma_drafted_keeps(
                base,
                self.primary(),
                fallback_part(base, self.primary(), peer, picked@),
            );
        }
        picked
    }

    /// A peer has disconnected. A tracked peer is marked dead and keeps its
    /// cursor, and the broadcast recipients are reconsidered; an unknown peer
    /// is ignored. Returns the fallback peers that were drafted in its place,
    /// to whom a broadcast is to be scheduled.
    pub fn disable_peer(&mut self, peer: PeerNetworkId) -> (picked: Vec<PeerNetworkId>)
        requires
            old(self).wf(),
        ensures
            final(self).is_after_disable_peer(old(self), peer, picked@),
    {
        let ghost before = self.records();
        let ghost dead = with_dead(before, peer);
        let ghost base = released(dead, peer);
        proof {
            lemma_find(before, peer);
        }
        match self.position(peer) {
            Some(at) => {
                let record = self.peer_info[at];
                proof {
                    lemma_find_at(before, at as int);
                }
                self.peer_info.set(
                    at,
                    PeerRecord {
                        state: PeerSyncState { is_alive: false, ..record.state },
                        ..record
                    },
                );
                proof {
                    assert(self.records() =~= dead) by {
                        assert forall|i: int| 0 <= i < dead.len() implies self.records()[i]
                            == dead[i] by {
                            if i != at {
                                assert(before[i].peer != before[at as int].peer);
                            }
                        }
                    }
                    lemma_find_at(self.records(), at as int);
                    assert(picks_are_alive_fallbacks(base, self.primary())) by {
                        assert forall|i: int|
                            0 <= i < base.len() && (#[trigger] base[i]).picked implies base[i].state.is_alive
                            && !self.primary().contains(base[i].peer) by {
                            assert(before[i].picked);
                        }
                    }
                    assert(self.tracks_upstream_only()) by {
                        assert forall|i: int|
                            0 <= i < dead.len() implies self.spec_is_upstream_peer(
                            (#[trigger] dead[i]).peer,
                        ) by {
                            assert(old(self).spec_is_upstream_peer(before[i].peer));
                        }
                    }
                    lemma_find_at(base, at as int);
                }
                let picked = self.update_picked_peers(peer);
                proof {
                    lemma_drafted_keeps(base, self.primary(), picked@);
                }
                picked
            },
            None => Vec::new(),
        }
    }

    /// Takes note of the cursors that the broadcast workers report, in turn.
    /// A report moves the cursor of its peer forward to the reported timeline
    /// id; a report for an unknown peer, or one that would move a cursor back,
    /// changes nothing.
    pub fn update_peer_broadcast(&mut self, peer_broadcasts: Vec<(PeerNetworkId, u64)>)
        requires
            old(self).wf(),
        ensures
            final(self).wf(),
            final(self).same_config(old(self)),
            final(self).records() == advanced_by(old(self).records(), peer_broadcasts@),
            cursors_never_decrease(old(self).records(), final(self).records()),
    {
        let ghost before = self.records();
        let mut i: usize = 0;
        while i < peer_broadcasts.len()
            invariant
                i <= peer_broadcasts.len(),
                self.same_config(old(self)),
                self.records() == advanced_by(before, peer_broadcasts@.take(i as int)),
                self.records().len() == before.len(),
                distinct_peers(before),
                forall|j: int|
                    0 <= j < before.len() ==> (#[trigger] self.records()[j]).peer == before[j].peer
                        && self.records()[j].picked == before[j].picked
                        && self.records()[j].state.is_alive == before[j].state.is_alive
                        && self.records()[j].state.timeline_id >= before[j].state.timeline_id,
            decreases peer_broadcasts.len() - i,
        {
            let (peer, timeline_id) = peer_broadcasts[i];
            let ghost current = self.records();
            proof {
                let next = peer_broadcasts@.take(i + 1);
                assert(next.drop_last() == peer_broadcasts@.take(i as int));
                assert(next.last() == peer_broadcasts@[i as int]);
            }
            match self.position(peer) {
                Some(at) => {
                    let record = self.peer_info[at];
                    if record.state.timeline_id < timeline_id {
                        self.peer_info.set(
                            at,
                            PeerRecord {
                                state: PeerSyncState { timeline_id, ..record.state },
                                ..record
                            },
                        );
                    }
                    proof {
                        assert(self.records() =~= advanced(current, peer, timeline_id)) by {
                            assert forall|j: int| 0 <= j < current.len() implies self.records()[j]
                                == advanced(current, peer, timeline_id)[j] by {
                                if j != at {
                                    assert(before[j].peer != before[at as int].peer);
                                }
                            }
                        }
                    }
                },
                None => {
                    proof {
                        assert(self.records() =~= advanced(current, peer, timeline_id));
                    }
                },
            }
            i += 1;
        }
        proof {
            assert(peer_broadcasts@.take(i as int) == peer_broadcasts@);
            let after = self.records();
            let primary = self.primary();
            lemma_count_agree(before, after, |r: PeerRecord| is_alive_primary(primary, r));
            lemma_count_agree(before, after, |r: PeerRecord| r.picked);
            lemma_count_agree(before, after, |r: PeerRecord| r.state.is_alive);
            assert forall|a: int, b: int| 0 <= a < b < after.len() implies (#[trigger] after[a]).peer
                != (#[trigger] after[b]).peer by {
                assert(before[a].peer != before[b].peer);
            }
            assert forall|j: int| 0 <= j < after.len() implies self.spec_is_upstream_peer(
                (#[trigger] after[j]).peer,
            ) by {
                assert(old(self).spec_is_upstream_peer(before[j].peer));
            }
            assert forall|j: int|
                0 <= j < after.len() && (#[trigger] after[j]).picked implies after[j].state.is_alive
                && !primary.contains(after[j].peer) by {
                assert(before[j].picked);
            }
        }
    }

    /// The sync state of `peer` if it is a broadcast recipient: an alive
    /// primary or a drafted fallback.
    pub fn should_broadcast(&self, peer: PeerNetworkId) -> (state: Option<PeerSyncState>)
        requires
            self.wf(),
        ensures
            state == match find(self.records(), peer) {
                Some(record) => if is_alive_primary(self.primary(), record) || record.picked {
                    Some(record.state)
                } else {
                    None
                },
                None => None,
            },
    {
        proof {
            lemma_find(self.records(), peer);
        }
        match self.position(peer) {
            Some(at) => {
                let record = self.peer_info[at];
                proof {
                    lemma_find_at(self.records(), at as int);
                }
                if (self.upstream_config.is_primary_upstream_peer(peer) && record.state.is_alive)
                    || record.picked {
                    Some(record.state)
                } else {
                    None
                }
            },
            None => None,
        }
    }
}

/// After every change of a peer's liveness and after every report of
/// cursors, the alive primaries and the drafted fallbacks are at least the
/// quota, or all the alive peers where these are fewer than the quota.
pub proof fn lemma_recipient_quota(manager: &PeerManager)
    requires
        manager.wf(),
    ensures
        alive_primaries(manager.records(), manager.primary()) + picked_fallbacks(manager.records())
            >= vstd::math::min(
            manager.min_recipients() as int,
            alive_peers(manager.records()) as int,
        ),
        picked_fallbacks(manager.records()) + alive_primaries(manager.records(), manager.primary())
            <= alive_peers(manager.records()),
{
    lemma_recipients_bound(manager.records(), manager.primary());
}

/// A peer that disconnects and connects again is alive at the cursor that it
/// had: `lost` is the registry after `peer` has disconnected from `before`,
/// and `back` the registry after it has connected again.
pub proof fn lemma_resumes_at_retained_cursor(
    before: &PeerManager,
    lost: &PeerManager,
    back: &PeerManager,
    peer: PeerNetworkId,
    picked_when_lost: Seq<PeerNetworkId>,
    picked_when_back: Seq<PeerNetworkId>,
)
    requires
        before.wf(),
        find(before.records(), peer) is Some,
        lost.is_after_disable_peer(before, peer, picked_when_lost),
        back.is_after_add_peer(lost, peer, picked_when_back),
    ensures
        find(lost.records(), peer) matches Some(record) && !record.state.is_alive
            && record.state.timeline_id == find(before.records(), peer).unwrap().state.timeline_id,
        find(back.records(), peer) matches Some(record) && record.state.is_alive
            && record.state.timeline_id == find(before.records(), peer).unwrap().state.timeline_id,
{
    let record = find(before.records(), peer).unwrap();
    lemma_find(before.records(), peer);
    let at = choose|i: int| 0 <= i < before.records().len() && before.records()[i] == record;
    assert(lost.records()[at].peer == peer);
    assert(back.records()[at].peer == peer);
    lemma_find_at(lost.records(), at);
    lemma_find_at(back.records(), at);
    assert(lost.spec_is_upstream_peer(lost.records()[at].peer));
    let dead = released(with_dead(before.records(), peer), peer);
    assert(!dead[at].state.is_alive);
    assert(!lost.records()[at].state.is_alive);
    let alive = with_alive(lost.records(), peer);
    assert(alive[at].state.is_alive);
}

} // verus!
