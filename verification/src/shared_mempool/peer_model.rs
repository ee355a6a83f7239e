//! The mathematical model of the peer registry: what each operation of the
//! peer manager does to the sequence of peer records, and the counting facts
//! behind the recipient quota.

use crate::shared_mempool::peer_manager::PeerSyncState;
use crate::types::PeerNetworkId;
use vstd::prelude::*;

verus! {

/// One tracked peer: its sync state and whether it is currently drafted as a
/// fallback recipient.
#[derive(Clone, Copy, Debug, PartialEq, Eq, Structural)]
pub struct PeerRecord {
    pub peer: PeerNetworkId,
    pub state: PeerSyncState,
    pub picked: bool,
}

/// The record of `peer` in `records`, if it has one.
pub open spec fn find(records: Seq<PeerRecord>, peer: PeerNetworkId) -> Option<PeerRecord>
    decreases records.len(),
{
    if records.len() == 0 {
        None
    } else if records.last().peer == peer {
        Some(records.last())
    } else {
        find(records.drop_last(), peer)
    }
}

/// No peer has two records.
pub open spec fn distinct_peers(records: Seq<PeerRecord>) -> bool {
    forall|i: int, j: int|
        0 <= i < j < records.len() ==> (#[trigger] records[i]).peer != (#[trigger] records[j]).peer
}

/// How many records satisfy `keep`.
pub open spec fn count_where(records: Seq<PeerRecord>, keep: spec_fn(PeerRecord) -> bool) -> nat
    decreases records.len(),
{
    if records.len() == 0 {
        0
    } else {
        count_where(records.drop_last(), keep) + if keep(records.last()) {
            1nat
        } else {
            0nat
        }
    }
}

/// The record is that of a primary whose connection is healthy.
pub open spec fn is_alive_primary(primary: Seq<PeerNetworkId>, record: PeerRecord) -> bool {
    primary.contains(record.peer) && record.state.is_alive
}

/// The record is that of a fallback peer that may still be drafted: alive,
/// not a primary and not drafted yet.
pub open spec fn is_candidate(primary: Seq<PeerNetworkId>, record: PeerRecord) -> bool {
    !primary.contains(record.peer) && !record.picked && record.state.is_alive
}

/// Number of primaries whose connection is healthy.
pub open spec fn alive_primaries(records: Seq<PeerRecord>, primary: Seq<PeerNetworkId>) -> nat {
    count_where(records, |r: PeerRecord| is_alive_primary(primary, r))
}

/// Number of drafted fallback peers.
pub open spec fn picked_fallbacks(records: Seq<PeerRecord>) -> nat {
    count_where(records, |r: PeerRecord| r.picked)
}

/// Number of tracked peers whose connection is healthy.
pub open spec fn alive_peers(records: Seq<PeerRecord>) -> nat {
    count_where(records, |r: PeerRecord| r.state.is_alive)
}

/// Number of broadcast recipients: alive primaries and drafted fallbacks.
pub open spec fn recipients(records: Seq<PeerRecord>, primary: Seq<PeerNetworkId>) -> nat {
    alive_primaries(records, primary) + picked_fallbacks(records)
}

/// How many more fallback peers the quota `min_recipients` asks for.
pub open spec fn shortfall(
    records: Seq<PeerRecord>,
    primary: Seq<PeerNetworkId>,
    min_recipients: nat,
) -> nat {
    if recipients(records, primary) < min_recipients {
        (min_recipients - recipients(records, primary)) as nat
    } else {
        0
    }
}

/// The recipient quota: the alive primaries and the drafted fallbacks are at
/// least `min_recipients`, or all the alive peers where these are fewer.
pub open spec fn quota_met(
    records: Seq<PeerRecord>,
    primary: Seq<PeerNetworkId>,
    min_recipients: nat,
) -> bool {
    alive_primaries(records, primary) + picked_fallbacks(records) >= vstd::math::min(
        min_recipients as int,
        alive_peers(records) as int,
    )
}

/// Only alive peers that are no primaries are drafted.
pub open spec fn picks_are_alive_fallbacks(
    records: Seq<PeerRecord>,
    primary: Seq<PeerNetworkId>,
) -> bool {
    forall|i: int|
        0 <= i < records.len() && (#[trigger] records[i]).picked ==> records[i].state.is_alive
            && !primary.contains(records[i].peer)
}

/// The peers that may still be drafted, in the order of their records.
pub open spec fn candidate_peers(records: Seq<PeerRecord>, primary: Seq<PeerNetworkId>) -> Seq<
    PeerNetworkId,
>
    decreases records.len(),
{
    if records.len() == 0 {
        Seq::empty()
    } else if is_candidate(primary, records.last()) {
        candidate_peers(records.drop_last(), primary).push(records.last().peer)
    } else {
        candidate_peers(records.drop_last(), primary)
    }
}

/// `chosen` was taken from `candidates` without taking any position twice.
pub open spec fn is_selection_of(chosen: Seq<PeerNetworkId>, candidates: Seq<PeerNetworkId>) -> bool {
    exists|at: Seq<int>|
        #![trigger at.no_duplicates()]
        at.len() == chosen.len() && at.no_duplicates() && forall|i: int|
            0 <= i < chosen.len() ==> 0 <= #[trigger] at[i] < candidates.len() && candidates[at[i]]
                == chosen[i]
}

/// The records once `peer` is seen alive: its record is marked alive, or, if
/// it had none, a fresh record at cursor 0 is added.
pub open spec fn with_alive(records: Seq<PeerRecord>, peer: PeerNetworkId) -> Seq<PeerRecord> {
    if find(records, peer) is Some {
        Seq::new(
            records.len(),
            |i: int|
                if records[i].peer == peer {
                    PeerRecord {
                        state: PeerSyncState { is_alive: true, ..records[i].state },
                        ..records[i]
                    }
                } else {
                    records[i]
                },
        )
    } else {
        records.push(
            PeerRecord {
                peer,
                state: PeerSyncState { timeline_id: 0, is_alive: true },
                picked: false,
            },
        )
    }
}

/// The records once `peer` is seen dead: its record keeps its cursor.
pub open spec fn with_dead(records: Seq<PeerRecord>, peer: PeerNetworkId) -> Seq<PeerRecord> {
    Seq::new(
        records.len(),
        |i: int|
            if records[i].peer == peer {
                PeerRecord {
                    state: PeerSyncState { is_alive: false, ..records[i].state },
                    ..records[i]
                }
            } else {
                records[i]
            },
    )
}

/// The records once `peer`, if its connection is down, has left the drafted
/// fallbacks.
pub open spec fn released(records: Seq<PeerRecord>, peer: PeerNetworkId) -> Seq<PeerRecord> {
    Seq::new(
        records.len(),
        |i: int|
            if records[i].peer == peer && !records[i].state.is_alive {
                PeerRecord { picked: false, ..records[i] }
            } else {
                records[i]
            },
    )
}

/// The records once every candidate among `chosen` is drafted.
pub open spec fn drafted(
    records: Seq<PeerRecord>,
    primary: Seq<PeerNetworkId>,
    chosen: Seq<PeerNetworkId>,
) -> Seq<PeerRecord> {
    Seq::new(
        records.len(),
        |i: int|
            if is_candidate(primary, records[i]) && chosen.contains(records[i].peer) {
                PeerRecord { picked: true, ..records[i] }
            } else {
                records[i]
            },
    )
}

/// The records once `peer`, if tracked, has acknowledged the log up to
/// `timeline_id`: a cursor only moves forward.
pub open spec fn advanced(records: Seq<PeerRecord>, peer: PeerNetworkId, timeline_id: u64) -> Seq<
    PeerRecord,
> {
    Seq::new(
        records.len(),
        |i: int|
            if records[i].peer == peer && records[i].state.timeline_id < timeline_id {
                PeerRecord { state: PeerSyncState { timeline_id, ..records[i].state }, ..records[i] }
            } else {
                records[i]
            },
    )
}

/// The records once each report of `reports` has been applied in turn.
pub open spec fn advanced_by(records: Seq<PeerRecord>, reports: Seq<(PeerNetworkId, u64)>) -> Seq<
    PeerRecord,
>
    decreases reports.len(),
{
    if reports.len() == 0 {
        records
    } else {
        advanced(advanced_by(records, reports.drop_last()), reports.last().0, reports.last().1)
    }
}

/// The peers to whom a change of `peer`'s liveness schedules a broadcast:
/// `peer` itself where it is an alive primary, then the fallbacks `chosen`.
pub open spec fn scheduled(
    records: Seq<PeerRecord>,
    primary: Seq<PeerNetworkId>,
    peer: PeerNetworkId,
    chosen: Seq<PeerNetworkId>,
) -> Seq<PeerNetworkId> {
    if find(records, peer) matches Some(record) && is_alive_primary(primary, record) {
        seq![peer] + chosen
    } else {
        chosen
    }
}

/// The fallbacks among the peers `picked` that a change of `peer`'s liveness
/// has scheduled: all of them but `peer` itself, which comes first where it
/// is an alive primary.
pub open spec fn fallback_part(
    records: Seq<PeerRecord>,
    primary: Seq<PeerNetworkId>,
    peer: PeerNetworkId,
    picked: Seq<PeerNetworkId>,
) -> Seq<PeerNetworkId> {
    if find(records, peer) matches Some(record) && is_alive_primary(primary, record) {
        picked.skip(1)
    } else {
        picked
    }
}

/// From `before` to `after` every tracked peer keeps its place, and its
/// cursor has not moved back.
pub open spec fn cursors_never_decrease(before: Seq<PeerRecord>, after: Seq<PeerRecord>) -> bool {
    &&& before.len() <= after.len()
    &&& forall|i: int|
        0 <= i < before.len() ==> (#[trigger] after[i]).peer == before[i].peer
            && after[i].state.timeline_id >= before[i].state.timeline_id
}

/// From `before` to `after` every tracked peer keeps its place and its
/// cursor.
pub open spec fn cursors_kept(before: Seq<PeerRecord>, after: Seq<PeerRecord>) -> bool {
    &&& before.len() <= after.len()
    &&& forall|i: int|
        0 <= i < before.len() ==> (#[trigger] after[i]).peer == before[i].peer
            && after[i].state.timeline_id == before[i].state.timeline_id
}

/// `chosen` is a choice of fallbacks that the quota allows in `records`:
/// every candidate where the shortfall asks for all of them, else as many
/// candidates as the shortfall, none of them twice.
pub open spec fn fills_shortfall(
    records: Seq<PeerRecord>,
    primary: Seq<PeerNetworkId>,
    min_recipients: nat,
    chosen: Seq<PeerNetworkId>,
) -> bool {
    let candidates = candidate_peers(records, primary);
    let need = shortfall(records, primary, min_recipients);
    if need >= candidates.len() {
        chosen == candidates
    } else {
        chosen.len() == need && is_selection_of(chosen, candidates)
    }
}

/// A record found for a peer is one of the records and bears that peer.
pub proof fn lemma_find(records: Seq<PeerRecord>, peer: PeerNetworkId)
    ensures
        find(records, peer) matches Some(record) ==> record.peer == peer && records.contains(
            record,
        ),
        find(records, peer) is None ==> forall|i: int|
            0 <= i < records.len() ==> (#[trigger] records[i]).peer != peer,
    decreases records.len(),
{
    if records.len() > 0 {
        lemma_find(records.drop_last(), peer);
        if records.last().peer == peer {
            assert(records[records.len() - 1] == records.last());
        } else {
            if find(records, peer) is Some {
                let record = find(records, peer).unwrap();
                let i = choose|i: int|
                    0 <= i < records.drop_last().len() && records.drop_last()[i] == record;
                assert(records[i] == record);
            } else {
                assert forall|i: int| 0 <= i < records.len() implies (#[trigger] records[i]).peer
                    != peer by {
                    if i < records.len() - 1 {
                        assert(records.drop_last()[i] == records[i]);
                    }
                }
            }
        }
    }
}

/// Among records of distinct peers, the record at any position is the one
/// found for its peer.
pub proof fn lemma_find_at(records: Seq<PeerRecord>, at: int)
    requires
        distinct_peers(records),
        0 <= at < records.len(),
    ensures
        find(records, records[at].peer) == Some(records[at]),
    decreases records.len(),
{
    if at < records.len() - 1 {
        assert(records.drop_last()[at] == records[at]);
        assert(distinct_peers(records.drop_last())) by {
            assert forall|i: int, j: int| 0 <= i < j < records.drop_last().len() implies (
            #[trigger] records.drop_last()[i]).peer != (#[trigger] records.drop_last()[j]).peer by {
                assert(records.drop_last()[i] == records[i]);
                assert(records.drop_last()[j] == records[j]);
            }
        }
        lemma_find_at(records.drop_last(), at);
    }
}

/// Two sequences whose records agree on a property, position by position,
/// have the same count of it.
pub proof fn lemma_count_agree(
    before: Seq<PeerRecord>,
    after: Seq<PeerRecord>,
    keep: spec_fn(PeerRecord) -> bool,
)
    requires
        before.len() == after.len(),
        forall|i: int| 0 <= i < before.len() ==> keep(#[trigger] before[i]) == keep(after[i]),
    ensures
        count_where(before, keep) == count_where(after, keep),
    decreases before.len(),
{
    if before.len() > 0 {
        assert forall|i: int| 0 <= i < before.drop_last().len() implies keep(
            #[trigger] before.drop_last()[i],
        ) == keep(after.drop_last()[i]) by {
            assert(before.drop_last()[i] == before[i]);
            assert(after.drop_last()[i] == after[i]);
        }
        lemma_count_agree(before.drop_last(), after.drop_last(), keep);
        assert(before.last() == before[before.len() - 1]);
        assert(after.last() == after[after.len() - 1]);
    }
}

/// Two sequences whose records agree on a property everywhere but at `at`
/// differ in its count by what the record at `at` contributes.
pub proof fn lemma_count_change(
    before: Seq<PeerRecord>,
    after: Seq<PeerRecord>,
    keep: spec_fn(PeerRecord) -> bool,
    at: int,
)
    requires
        before.len() == after.len(),
        0 <= at < before.len(),
        forall|i: int|
            0 <= i < before.len() && i != at ==> keep(#[trigger] before[i]) == keep(after[i]),
    ensures
        count_where(after, keep) + (if keep(before[at]) {
            1nat
        } else {
            0nat
        }) == count_where(before, keep) + (if keep(after[at]) {
            1nat
        } else {
            0nat
        }),
    decreases before.len(),
{
    let last = before.len() - 1;
    assert(before.last() == before[last]);
    assert(after.last() == after[last]);
    if at == last {
        assert forall|i: int| 0 <= i < before.drop_last().len() implies keep(
            #[trigger] before.drop_last()[i],
        ) == keep(after.drop_last()[i]) by {
            assert(before.drop_last()[i] == before[i]);
            assert(after.drop_last()[i] == after[i]);
        }
        lemma_count_agree(before.drop_last(), after.drop_last(), keep);
    } else {
        assert forall|i: int| 0 <= i < before.drop_last().len() && i != at implies keep(
            #[trigger] before.drop_last()[i],
        ) == keep(after.drop_last()[i]) by {
            assert(before.drop_last()[i] == before[i]);
            assert(after.drop_last()[i] == after[i]);
        }
        lemma_count_change(before.drop_last(), after.drop_last(), keep, at);
        assert(before.drop_last()[at] == before[at]);
        assert(after.drop_last()[at] == after[at]);
    }
}

/// Where every alive peer is an alive primary or a drafted fallback, there
/// are at least as many recipients as alive peers.
pub proof fn lemma_recipients_cover(records: Seq<PeerRecord>, primary: Seq<PeerNetworkId>)
    requires
        forall|i: int|
            0 <= i < records.len() && (#[trigger] records[i]).state.is_alive ==> is_alive_primary(
                primary,
                records[i],
            ) || records[i].picked,
    ensures
        recipients(records, primary) >= alive_peers(records),
    decreases records.len(),
{
    if records.len() > 0 {
        assert forall|i: int|
            0 <= i < records.drop_last().len() && (
            #[trigger] records.drop_last()[i]).state.is_alive implies is_alive_primary(
            primary,
            records.drop_last()[i],
        ) || records.drop_last()[i].picked by {
            assert(records.drop_last()[i] == records[i]);
        }
        lemma_recipients_cover(records.drop_last(), primary);
        assert(records.last() == records[records.len() - 1]);
    }
}

/// Where only alive peers that are no primaries are drafted, the recipients
/// are no more than the alive peers.
pub proof fn lemma_recipients_bound(records: Seq<PeerRecord>, primary: Seq<PeerNetworkId>)
    requires
        picks_are_alive_fallbacks(records, primary),
    ensures
        recipients(records, primary) <= alive_peers(records) <= records.len(),
    decreases records.len(),
{
    if records.len() > 0 {
        assert forall|i: int|
            0 <= i < records.drop_last().len() && (
            #[trigger] records.drop_last()[i]).picked implies records.drop_last()[i].state.is_alive
            && !primary.contains(records.drop_last()[i].peer) by {
            assert(records.drop_last()[i] == records[i]);
        }
        lemma_recipients_bound(records.drop_last(), primary);
        assert(records.last() == records[records.len() - 1]);
    }
}

/// The candidate peers are the peers of the candidate records, and none of
/// them twice where the records are of distinct peers.
pub proof fn lemma_candidate_peers(records: Seq<PeerRecord>, primary: Seq<PeerNetworkId>)
    ensures
        forall|p: PeerNetworkId| #[trigger]
            candidate_peers(records, primary).contains(p) <==> exists|i: int|
                0 <= i < records.len() && is_candidate(primary, #[trigger] records[i])
                    && records[i].peer == p,
        candidate_peers(records, primary).len() <= records.len(),
        distinct_peers(records) ==> candidate_peers(records, primary).no_duplicates(),
    decreases records.len(),
{
    let here = candidate_peers(records, primary);
    if records.len() > 0 {
        let front = records.drop_last();
        let before = candidate_peers(front, primary);
        let last = records.last();
        lemma_candidate_peers(front, primary);
        assert(last == records[records.len() - 1]);
        assert forall|p: PeerNetworkId| #[trigger] here.contains(p) <==> exists|i: int|
            0 <= i < records.len() && is_candidate(primary, #[trigger] records[i]) && records[i].peer
                == p by {
            if here.contains(p) {
                let k = choose|k: int| 0 <= k < here.len() && here[k] == p;
                if is_candidate(primary, last) && k == here.len() - 1 {
                    assert(is_candidate(primary, records[records.len() - 1]));
                } else {
                    assert(before[k] == p);
                    assert(before.contains(p));
                    let i = choose|i: int|
                        0 <= i < front.len() && is_candidate(primary, #[trigger] front[i])
                            && front[i].peer == p;
                    assert(records[i] == front[i]);
                }
            }
            if exists|i: int|
                0 <= i < records.len() && is_candidate(primary, #[trigger] records[i])
                    && records[i].peer == p {
                let i = choose|i: int|
                    0 <= i < records.len() && is_candidate(primary, #[trigger] records[i])
                        && records[i].peer == p;
                if i == records.len() - 1 {
                    assert(here[here.len() - 1] == p);
                } else {
                    assert(front[i] == records[i]);
                    assert(before.contains(p));
                    let k = choose|k: int| 0 <= k < before.len() && before[k] == p;
                    assert(here[k] == p);
                }
            }
        }
        if distinct_peers(records) {
            assert(distinct_peers(front)) by {
                assert forall|i: int, j: int| 0 <= i < j < front.len() implies (
                #[trigger] front[i]).peer != (#[trigger] front[j]).peer by {
                    assert(front[i] == records[i]);
                    assert(front[j] == records[j]);
                }
            }
            if is_candidate(primary, last) {
                assert(!before.contains(last.peer)) by {
                    if before.contains(last.peer) {
                        let i = choose|i: int|
                            0 <= i < front.len() && is_candidate(primary, #[trigger] front[i])
                                && front[i].peer == last.peer;
                        assert(records[i] == front[i]);
                    }
                }
                assert forall|a: int, b: int| 0 <= a < here.len() && 0 <= b < here.len() && a
                    != b implies here[a] != here[b] by {
                    if a < before.len() {
                        assert(before[a] == here[a]);
                    }
                    if b < before.len() {
                        assert(before[b] == here[b]);
                    }
                }
            }
        }
    }
}

/// What is taken from candidates without repetition holds candidates only,
/// and none of them twice where no candidate occurs twice.
pub proof fn lemma_selection(chosen: Seq<PeerNetworkId>, candidates: Seq<PeerNetworkId>)
    requires
        is_selection_of(chosen, candidates),
    ensures
        forall|i: int| 0 <= i < chosen.len() ==> candidates.contains(#[trigger] chosen[i]),
        candidates.no_duplicates() ==> chosen.no_duplicates(),
{
    let at = choose|at: Seq<int>|
        #![trigger at.no_duplicates()]
        at.len() == chosen.len() && at.no_duplicates() && forall|i: int|
            0 <= i < chosen.len() ==> 0 <= #[trigger] at[i] < candidates.len() && candidates[at[i]]
                == chosen[i];
    assert forall|i: int| 0 <= i < chosen.len() implies candidates.contains(
        #[trigger] chosen[i],
    ) by {
        assert(candidates[at[i]] == chosen[i]);
    }
    if candidates.no_duplicates() {
        assert forall|i: int, j: int| 0 <= i < chosen.len() && 0 <= j < chosen.len() && i
            != j implies chosen[i] != chosen[j] by {
            assert(candidates[at[i]] == chosen[i]);
            assert(candidates[at[j]] == chosen[j]);
            assert(at[i] != at[j]);
        }
    }
}

/// Drafting candidates changes neither which peers are tracked, nor their
/// liveness, nor their cursors, and keeps the drafted peers alive fallbacks.
pub proof fn lemma_drafted_keeps(
    records: Seq<PeerRecord>,
    primary: Seq<PeerNetworkId>,
    chosen: Seq<PeerNetworkId>,
)
    ensures
        drafted(records, primary, chosen).len() == records.len(),
        forall|i: int|
            0 <= i < records.len() ==> (#[trigger] drafted(records, primary, chosen)[i]).peer
                == records[i].peer && drafted(records, primary, chosen)[i].state
                == records[i].state,
        distinct_peers(records) ==> distinct_peers(drafted(records, primary, chosen)),
        picks_are_alive_fallbacks(records, primary) ==> picks_are_alive_fallbacks(
            drafted(records, primary, chosen),
            primary,
        ),
        alive_primaries(drafted(records, primary, chosen), primary) == alive_primaries(
            records,
            primary,
        ),
        alive_peers(drafted(records, primary, chosen)) == alive_peers(records),
        picked_fallbacks(drafted(records, primary, chosen)) >= picked_fallbacks(records),
{
    let after = drafted(records, primary, chosen);
    if distinct_peers(records) {
        assert forall|i: int, j: int| 0 <= i < j < after.len() implies (#[trigger] after[i]).peer
            != (#[trigger] after[j]).peer by {
            assert(records[i].peer != records[j].peer);
        }
    }
    if picks_are_alive_fallbacks(records, primary) {
        assert forall|i: int|
            0 <= i < after.len() && (#[trigger] after[i]).picked implies after[i].state.is_alive
            && !primary.contains(after[i].peer) by {
            assert(records[i].picked || is_candidate(primary, records[i]));
        }
    }
    lemma_count_agree(records, after, |r: PeerRecord| is_alive_primary(primary, r));
    lemma_count_agree(records, after, |r: PeerRecord| r.state.is_alive);
    lemma_picks_grow(records, after);
}

/// Where each record that is drafted in `before` is drafted in `after`,
/// `after` has no fewer drafted records.
pub proof fn lemma_picks_grow(before: Seq<PeerRecord>, after: Seq<PeerRecord>)
    requires
        before.len() == after.len(),
        forall|i: int| 0 <= i < before.len() && (#[trigger] before[i]).picked ==> after[i].picked,
    ensures
        picked_fallbacks(before) <= picked_fallbacks(after),
    decreases before.len(),
{
    if before.len() > 0 {
        assert forall|i: int|
            0 <= i < before.drop_last().len() && (
            #[trigger] before.drop_last()[i]).picked implies after.drop_last()[i].picked by {
            assert(before.drop_last()[i] == before[i]);
            assert(after.drop_last()[i] == after[i]);
        }
        lemma_picks_grow(before.drop_last(), after.drop_last());
        assert(before.last() == before[before.len() - 1]);
        assert(after.last() == after[after.len() - 1]);
    }
}

/// Drafting distinct candidates adds exactly their number to the drafted
/// fallbacks.
pub proof fn lemma_drafted_count(
    records: Seq<PeerRecord>,
    primary: Seq<PeerNetworkId>,
    chosen: Seq<PeerNetworkId>,
)
    requires
        distinct_peers(records),
        chosen.no_duplicates(),
        forall|i: int|
            0 <= i < chosen.len() ==> candidate_peers(records, primary).contains(
                #[trigger] chosen[i],
            ),
    ensures
        picked_fallbacks(drafted(records, primary, chosen)) == picked_fallbacks(records)
            + chosen.len(),
    decreases chosen.len(),
{
    let picked = |r: PeerRecord| r.picked;
    if chosen.len() == 0 {
        lemma_count_agree(records, drafted(records, primary, chosen), picked);
    } else {
        let front = chosen.drop_last();
        let last = chosen.last();
        assert forall|i: int| 0 <= i < front.len() implies candidate_peers(
            records,
            primary,
        ).contains(#[trigger] front[i]) by {
            assert(front[i] == chosen[i]);
        }
        lemma_drafted_count(records, primary, front);
        lemma_candidate_peers(records, primary);
        assert(chosen[chosen.len() - 1] == last);
        assert(candidate_peers(records, primary).contains(last));
        let at = choose|i: int|
            0 <= i < records.len() && is_candidate(primary, #[trigger] records[i])
                && records[i].peer == last;
        let before = drafted(records, primary, front);
        let after = drafted(records, primary, chosen);
        assert(!front.contains(last)) by {
            if front.contains(last) {
                let k = choose|k: int| 0 <= k < front.len() && front[k] == last;
                assert(chosen[k] == last);
            }
        }
        assert(chosen.contains(last));
        assert forall|i: int| 0 <= i < before.len() && i != at implies picked(
            #[trigger] before[i],
        ) == picked(after[i]) by {
            assert(records[i].peer != records[at].peer);
            if chosen.contains(records[i].peer) {
                let k = choose|k: int| 0 <= k < chosen.len() && chosen[k] == records[i].peer;
                assert(front[k] == chosen[k]);
            }
            if front.contains(records[i].peer) {
                let k = choose|k: int| 0 <= k < front.len() && front[k] == records[i].peer;
                assert(chosen[k] == front[k]);
            }
        }
        lemma_count_change(before, after, picked, at);
    }
}

} // verus!
