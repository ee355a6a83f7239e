use shared_mempool::shared_mempool::peer_manager::PeerSyncState;
use shared_mempool::runtime::MempoolNetworkType;
use shared_mempool::shared_mempool::peer_manager::{PeerManager, UpstreamConfig};
use shared_mempool::types::{AccountAddress, PeerNetworkId};

fn validator(byte: u8) -> PeerNetworkId {
    PeerNetworkId(MempoolNetworkType::Validator, AccountAddress::repeated(byte))
}

fn full_node(byte: u8) -> PeerNetworkId {
    PeerNetworkId(MempoolNetworkType::FullNode, AccountAddress::repeated(byte))
}

fn config(primary: &[PeerNetworkId], fallback: &[PeerNetworkId]) -> UpstreamConfig {
    UpstreamConfig { primary: primary.to_vec(), fallback: fallback.to_vec() }
}

fn alive_at(timeline_id: u64) -> Option<PeerSyncState> {
    Some(PeerSyncState { timeline_id, is_alive: true })
}

fn recipients(manager: &PeerManager, peers: &[PeerNetworkId]) -> usize {
    peers.iter().filter(|peer| manager.should_broadcast(**peer).is_some()).count()
}

#[test]
fn new_manager_tracks_nobody() {
    let manager = PeerManager::new(config(&[validator(1)], &[validator(2)]), 1);
    assert_eq!(manager.should_broadcast(validator(1)), None);
    assert_eq!(manager.should_broadcast(validator(2)), None);
    assert_eq!(manager.peer_state(validator(1)), None);
}

#[test]
fn upstream_predicates_follow_the_configuration() {
    let manager = PeerManager::new(config(&[validator(1)], &[validator(2)]), 1);
    assert!(manager.is_upstream_peer(validator(1)));
    assert!(manager.is_upstream_peer(validator(2)));
    assert!(!manager.is_upstream_peer(validator(3)));
    assert!(manager.is_primary_upstream_peer(validator(1)));
    assert!(!manager.is_primary_upstream_peer(validator(2)));
    assert!(!manager.is_primary_upstream_peer(validator(3)));
}

#[test]
fn the_network_is_part_of_a_peers_identity() {
    let manager = PeerManager::new(config(&[validator(1)], &[]), 1);
    assert!(manager.is_upstream_peer(validator(1)));
    assert!(!manager.is_upstream_peer(full_node(1)));
}

#[test]
fn add_peer_ignores_a_peer_that_is_not_upstream() {
    let mut manager = PeerManager::new(config(&[validator(1)], &[validator(2)]), 1);
    let picked = manager.add_peer(validator(9));
    assert!(picked.is_empty());
    assert_eq!(manager.peer_state(validator(9)), None);
    assert_eq!(manager.should_broadcast(validator(9)), None);
}

#[test]
fn add_peer_tracks_a_primary_from_cursor_zero_and_picks_it() {
    let mut manager = PeerManager::new(config(&[validator(1)], &[validator(2)]), 1);
    let picked = manager.add_peer(validator(1));
    assert_eq!(picked, vec![validator(1)]);
    assert_eq!(manager.should_broadcast(validator(1)), alive_at(0));
    assert_eq!(manager.peer_state(validator(1)), alive_at(0));
}

#[test]
fn add_peer_is_idempotent_for_a_live_primary() {
    let mut manager = PeerManager::new(config(&[validator(1)], &[]), 1);
    manager.add_peer(validator(1));
    manager.update_peer_broadcast(vec![(validator(1), 4)]);
    let picked = manager.add_peer(validator(1));
    assert_eq!(picked, vec![validator(1)]);
    assert_eq!(manager.should_broadcast(validator(1)), alive_at(4));
}

#[test]
fn a_fallback_is_not_drafted_while_the_quota_is_met() {
    let mut manager = PeerManager::new(config(&[validator(1)], &[validator(2)]), 1);
    assert_eq!(manager.add_peer(validator(1)), vec![validator(1)]);
    let picked = manager.add_peer(validator(2));
    assert!(picked.is_empty());
    assert_eq!(manager.peer_state(validator(2)), alive_at(0));
    assert_eq!(manager.should_broadcast(validator(2)), None);
}

#[test]
fn a_fallback_is_drafted_where_primaries_are_missing() {
    let mut manager = PeerManager::new(config(&[validator(1)], &[validator(2)]), 1);
    let picked = manager.add_peer(validator(2));
    assert_eq!(picked, vec![validator(2)]);
    assert_eq!(manager.should_broadcast(validator(2)), alive_at(0));
}

#[test]
fn no_fallback_is_drafted_without_a_quota() {
    let mut manager = PeerManager::new(config(&[validator(1)], &[validator(2), validator(3)]), 0);
    assert!(manager.add_peer(validator(2)).is_empty());
    assert!(manager.add_peer(validator(3)).is_empty());
    assert!(manager.disable_peer(validator(2)).is_empty());
    assert_eq!(manager.should_broadcast(validator(2)), None);
    assert_eq!(manager.should_broadcast(validator(3)), None);
    assert_eq!(manager.add_peer(validator(1)), vec![validator(1)]);
}

#[test]
fn disable_peer_ignores_an_unknown_peer() {
    let mut manager = PeerManager::new(config(&[validator(1)], &[validator(2)]), 1);
    manager.add_peer(validator(1));
    let picked = manager.disable_peer(validator(2));
    assert!(picked.is_empty());
    assert_eq!(manager.peer_state(validator(2)), None);
    assert_eq!(manager.should_broadcast(validator(1)), alive_at(0));
}

#[test]
fn a_dead_primary_is_no_recipient_and_keeps_its_cursor() {
    let mut manager = PeerManager::new(config(&[validator(1)], &[]), 1);
    manager.add_peer(validator(1));
    manager.update_peer_broadcast(vec![(validator(1), 7)]);
    let picked = manager.disable_peer(validator(1));
    assert!(picked.is_empty());
    assert_eq!(manager.should_broadcast(validator(1)), None);
    assert_eq!(
        manager.peer_state(validator(1)),
        Some(PeerSyncState { timeline_id: 7, is_alive: false })
    );
}

#[test]
fn a_peer_that_comes_back_resumes_at_its_cursor() {
    let mut manager = PeerManager::new(config(&[validator(1)], &[]), 1);
    manager.add_peer(validator(1));
    manager.update_peer_broadcast(vec![(validator(1), 2)]);
    manager.disable_peer(validator(1));
    let picked = manager.add_peer(validator(1));
    assert_eq!(picked, vec![validator(1)]);
    assert_eq!(manager.should_broadcast(validator(1)), alive_at(2));
}

#[test]
fn a_dead_fallback_leaves_the_drafted_peers() {
    let mut manager = PeerManager::new(config(&[], &[validator(2)]), 1);
    assert_eq!(manager.add_peer(validator(2)), vec![validator(2)]);
    assert!(manager.disable_peer(validator(2)).is_empty());
    assert_eq!(manager.should_broadcast(validator(2)), None);
    assert_eq!(manager.add_peer(validator(2)), vec![validator(2)]);
    assert_eq!(manager.should_broadcast(validator(2)), alive_at(0));
}

#[test]
fn update_peer_broadcast_moves_cursors_forward() {
    let mut manager = PeerManager::new(config(&[validator(1), validator(2)], &[]), 2);
    manager.add_peer(validator(1));
    manager.add_peer(validator(2));
    manager.update_peer_broadcast(vec![(validator(1), 5), (validator(2), 3)]);
    assert_eq!(manager.should_broadcast(validator(1)), alive_at(5));
    assert_eq!(manager.should_broadcast(validator(2)), alive_at(3));
}

#[test]
fn update_peer_broadcast_applies_reports_in_turn() {
    let mut manager = PeerManager::new(config(&[validator(1)], &[]), 1);
    manager.add_peer(validator(1));
    manager.update_peer_broadcast(vec![(validator(1), 2), (validator(1), 9), (validator(1), 4)]);
    assert_eq!(manager.should_broadcast(validator(1)), alive_at(9));
}

#[test]
fn update_peer_broadcast_ignores_unknown_peers() {
    let mut manager = PeerManager::new(config(&[validator(1)], &[validator(2)]), 1);
    manager.add_peer(validator(1));
    manager.update_peer_broadcast(vec![(validator(2), 5), (validator(9), 6)]);
    assert_eq!(manager.peer_state(validator(2)), None);
    assert_eq!(manager.peer_state(validator(9)), None);
    assert_eq!(manager.should_broadcast(validator(1)), alive_at(0));
}

#[test]
fn a_cursor_never_moves_back() {
    let mut manager = PeerManager::new(config(&[validator(1)], &[]), 1);
    manager.add_peer(validator(1));
    manager.update_peer_broadcast(vec![(validator(1), 5)]);
    manager.update_peer_broadcast(vec![(validator(1), 3)]);
    assert_eq!(manager.should_broadcast(validator(1)), alive_at(5));
    manager.update_peer_broadcast(vec![(validator(1), 5)]);
    assert_eq!(manager.should_broadcast(validator(1)), alive_at(5));
    manager.update_peer_broadcast(vec![(validator(1), u64::MAX)]);
    assert_eq!(manager.should_broadcast(validator(1)), alive_at(u64::MAX));
}

#[test]
fn a_dead_peer_still_takes_reports() {
    let mut manager = PeerManager::new(config(&[validator(1)], &[]), 1);
    manager.add_peer(validator(1));
    manager.disable_peer(validator(1));
    manager.update_peer_broadcast(vec![(validator(1), 8)]);
    assert_eq!(
        manager.peer_state(validator(1)),
        Some(PeerSyncState { timeline_id: 8, is_alive: false })
    );
}

#[test]
fn fallback_promotion_keeps_two_recipients() {
    let (pa, pb, fa, fb) = (validator(1), validator(2), validator(3), validator(4));
    let mut manager = PeerManager::new(config(&[pa, pb], &[fa, fb]), 2);
    assert_eq!(manager.add_peer(pa), vec![pa]);
    assert_eq!(manager.add_peer(pb), vec![pb]);
    assert!(manager.add_peer(fa).is_empty());
    assert!(manager.add_peer(fb).is_empty());

    let picked = manager.disable_peer(pa);
    assert_eq!(picked.len(), 1);
    assert!(picked[0] == fa || picked[0] == fb);
    let other = if picked[0] == fa { fb } else { fa };
    assert!(manager.should_broadcast(pb).is_some());
    assert!(manager.should_broadcast(picked[0]).is_some());
    assert_eq!(manager.should_broadcast(other), None);
    assert_eq!(manager.should_broadcast(pa), None);
    assert_eq!(recipients(&manager, &[pa, pb, fa, fb]), 2);

    let picked = manager.disable_peer(pb);
    assert_eq!(picked, vec![other]);
    assert!(manager.should_broadcast(fa).is_some());
    assert!(manager.should_broadcast(fb).is_some());
    assert_eq!(manager.should_broadcast(pb), None);
    assert_eq!(recipients(&manager, &[pa, pb, fa, fb]), 2);
}

#[test]
fn one_of_three_candidates_is_drafted() {
    let (fa, fb, fc) = (validator(3), validator(4), validator(5));
    for _ in 0..20 {
        let mut manager = PeerManager::new(config(&[validator(1)], &[fa, fb, fc]), 1);
        manager.add_peer(validator(1));
        assert!(manager.add_peer(fa).is_empty());
        assert!(manager.add_peer(fb).is_empty());
        assert!(manager.add_peer(fc).is_empty());
        let picked = manager.disable_peer(validator(1));
        assert_eq!(picked.len(), 1);
        assert!([fa, fb, fc].contains(&picked[0]));
        assert_eq!(recipients(&manager, &[fa, fb, fc]), 1);
    }
}

#[test]
fn two_of_three_candidates_are_drafted_without_repetition() {
    let (pa, pb, fa, fb, fc) = (validator(1), validator(2), validator(3), validator(4), validator(5));
    for _ in 0..20 {
        let mut manager = PeerManager::new(config(&[pa, pb], &[fa, fb, fc]), 3);
        manager.add_peer(pa);
        manager.add_peer(pb);
        let first = manager.add_peer(fa);
        assert_eq!(first, vec![fa]);
        assert!(manager.add_peer(fb).is_empty());
        assert!(manager.add_peer(fc).is_empty());
        assert!(manager.disable_peer(fa).len() == 1);
        let picked = manager.disable_peer(pa);
        assert_eq!(picked.len(), 1);
        assert_eq!(recipients(&manager, &[pa, pb, fa, fb, fc]), 3);
        assert_eq!(recipients(&manager, &[fb, fc]), 2);
    }
}

#[test]
fn every_candidate_is_drafted_where_they_are_too_few() {
    let (fa, fb) = (validator(3), validator(4));
    let mut manager = PeerManager::new(config(&[validator(1)], &[fa, fb]), 5);
    assert_eq!(manager.add_peer(fa), vec![fa]);
    assert_eq!(manager.add_peer(fb), vec![fb]);
    assert_eq!(manager.add_peer(validator(1)), vec![validator(1)]);
    assert_eq!(recipients(&manager, &[validator(1), fa, fb]), 3);
}

#[test]
fn the_quota_holds_after_every_event() {
    let peers = [validator(1), validator(2), validator(3), validator(4), validator(5)];
    let k = 3;
    let mut manager = PeerManager::new(config(&peers[..2], &peers[2..]), k);
    let mut alive = [false; 5];
    let events: [(usize, bool); 14] = [
        (2, true), (0, true), (3, true), (4, true), (1, true), (0, false), (1, false),
        (2, false), (3, false), (0, true), (4, false), (2, true), (3, true), (0, false),
    ];
    for (index, up) in events.iter() {
        if *up {
            manager.add_peer(peers[*index]);
        } else {
            manager.disable_peer(peers[*index]);
        }
        alive[*index] = *up;
        let alive_count = alive.iter().filter(|a| **a).count();
        let wanted = if k < alive_count { k } else { alive_count };
        assert!(recipients(&manager, &peers) >= wanted);
        for (i, peer) in peers.iter().enumerate() {
            if manager.should_broadcast(*peer).is_some() {
                assert!(alive[i]);
            }
            if i < 2 {
                assert_eq!(manager.should_broadcast(*peer).is_some(), alive[i]);
            }
        }
    }
}

#[test]
fn draft_fallback_peers_drafts_candidates_only() {
    let (pa, fa, fb, fc) = (validator(1), validator(3), validator(4), validator(5));
    let mut manager = PeerManager::new(config(&[pa], &[fa, fb, fc]), 1);
    manager.add_peer(pa);
    manager.add_peer(fa);
    manager.add_peer(fb);
    manager.disable_peer(fb);
    manager.draft_fallback_peers(&vec![pa, fa, fb, fc, validator(9)]);
    assert_eq!(manager.should_broadcast(fa), alive_at(0));
    assert_eq!(manager.should_broadcast(fb), None);
    assert_eq!(manager.should_broadcast(fc), None);
    assert_eq!(manager.should_broadcast(pa), alive_at(0));
    assert_eq!(manager.should_broadcast(validator(9)), None);
}
