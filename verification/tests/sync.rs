use gossip::common::NetworkState;
use gossip::common::PeerState;
use gossip::sync::is_alive;
use gossip::sync::sync_state;
use gossip::sync::Notice;

#[test]
fn test_sync_init() {
    let foreign_state = NetworkState {
        sender: "sender".to_owned(),
        peers: vec![PeerState { // Peer is sender
            id: "sender".to_owned(),
            version: 1,
            heartbeat: 10,
            payload: Some("Sender's message".to_owned()),
            updated: None,
        }],
    };

    let mut recipient_state = NetworkState {
        sender: "recipient".to_owned(),
        peers: vec![PeerState {
            id: "recipient".to_owned(),
            version: 2,
            heartbeat: 1,
            payload: Some("Recepient's message".to_owned()),
            updated: None,
        }],
    };

    sync_state(&foreign_state, &mut recipient_state, 2, 12);
    println!("Recipient state: {:?}", recipient_state);
    assert_eq!(recipient_state.peers.len(), 2);
    assert_eq!(recipient_state.peers[0].id, "recipient");
    assert_eq!(recipient_state.peers[1].id, "sender");
}

#[test]
fn test_sync_full() {
    let foreign_state = NetworkState {
        sender: "sender".to_owned(),
        peers: vec![
            PeerState { // Alive peer
                id: "peer3".to_owned(),
                version: 3,
                heartbeat: 10,
                payload: Some("Peer3 v3 message".to_owned()),
                updated: None,
            },
            PeerState { // Sender peer
                id: "sender".to_owned(),
                version: 2,
                heartbeat: 10,
                payload: Some("Sender's v2 message".to_owned()),
                updated: None,
            },
            PeerState { // Alive peer
                id: "peer4".to_owned(),
                version: 4,
                heartbeat: 10,
                payload: Some("Peer4 v4 message".to_owned()),
                updated: None,
            },
            PeerState { // Recipient peer
                id: "recipient".to_owned(),
                version: 1,
                heartbeat: 10,
                payload: None,
                updated: None,
            },
            PeerState { // Dead peer
                id: "peer5".to_owned(),
                version: 5,
                heartbeat: 8,
                payload: Some("Peer5 v5 message".to_owned()),
                updated: None,
            },
            PeerState { // Alive peer
                id: "peer6".to_owned(),
                version: 3,
                heartbeat: 10,
                payload: Some("Peer6 v3 message".to_owned()),
                updated: None,
            },
            PeerState { // Alive peer
                id: "peer10".to_owned(),
                version: 3,
                heartbeat: 8,
                payload: Some("Peer10 v3 message".to_owned()),
                updated: None,
            },
        ],
    };

    let mut recipient_state = NetworkState {
        sender: "recipient".to_owned(),
        peers: vec![
            PeerState {
                id: "recipient".to_owned(),
                version: 1,
                heartbeat: 1,
                payload: None,
                updated: None,
            },
            PeerState { // Dead peer
                id: "peer5".to_owned(),
                version: 5,
                heartbeat: 8,
                payload: Some("Peer5 v5 message".to_owned()),
                updated: None,
            },
            PeerState {
                id: "sender".to_owned(),
                version: 1,
                heartbeat: 10,
                payload: None,
                updated: None,
            },
            PeerState { // Alive peer
                id: "peer3".to_owned(),
                version: 2,
                heartbeat: 9,
                payload: Some("Peer3 v2 message".to_owned()),
                updated: None,
            },
            PeerState { // Alive peer
                id: "peer8".to_owned(),
                version: 8,
                heartbeat: 10,
                payload: Some("Peer8 v8 message".to_owned()),
                updated: None,
            },
            PeerState { // Dead peer
                id: "peer9".to_owned(),
                version: 8,
                heartbeat: 8,
                payload: Some("Peer9 v8 message".to_owned()),
                updated: None,
            },
            PeerState { // Alive peer
                id: "peer10".to_owned(),
                version: 4,
                heartbeat: 10,
                payload: Some("Peer10 v4 message".to_owned()),
                updated: None,
            },
        ],
    };

    sync_state(&foreign_state, &mut recipient_state, 2, 11);
    println!("Recipient state: {:?}", recipient_state);
    assert_eq!(recipient_state.peers.len(), 7);
}

#[test]
fn test_sync_add_from_foreign() {
    let foreign_state = NetworkState {
        sender: "sender".to_owned(),
        peers: vec![
            PeerState { // Peer is sender
                id: "sender".to_owned(),
                version: 1,
                heartbeat: 10,
                payload: None,
                updated: None,
            },
            PeerState { // Alive peer
                id: "peer3".to_owned(),
                version: 4,
                heartbeat: 10,
                payload: None,
                updated: None,
            },
            PeerState { // Dead peer
                id: "peer4".to_owned(),
                version: 4,
                heartbeat: 8,
                payload: None,
                updated: None,
            },
        ],
    };

    let mut recipient_state = NetworkState {
        sender: "recipient".to_owned(),
        peers: vec![PeerState {
            id: "recipient".to_owned(),
            version: 1,
            heartbeat: 1,
            payload: None,
            updated: None,
        }],
    };

    sync_state(&foreign_state, &mut recipient_state, 2, 12);
    println!("Recipient state: {:?}", recipient_state);
    assert_eq!(recipient_state.peers.len(), 3);
    assert_eq!(recipient_state.peers[2].id, "peer3");
}

#[test]
fn test_sync_in_favour_of_foreign() {
    let foreign_state = NetworkState {
        sender: "sender".to_owned(),
        peers: vec![
            PeerState { // Recipient peer
                id: "recipient".to_owned(),
                version: 1,
                heartbeat: 10,
                payload: None,
                updated: None,
            },
            PeerState { // Sender peer
                id: "sender".to_owned(),
                version: 2,
                heartbeat: 10,
                payload: None,
                updated: None,
            },
            PeerState { // Alive peer
                id: "peer3".to_owned(),
                version: 3,
                heartbeat: 10,
                payload: None,
                updated: None,
            },
        ],
    };

    let mut recipient_state = NetworkState {
        sender: "recipient".to_owned(),
        peers: vec![
            PeerState {
                id: "recipient".to_owned(),
                version: 1,
                heartbeat: 1,
                payload: None,
                updated: None,
            },
            PeerState {
                id: "sender".to_owned(),
                version: 1,
                heartbeat: 10,
                payload: None,
                updated: None,
            },
        ],
    };

    sync_state(&foreign_state, &mut recipient_state, 2, 11);
    println!("Recipient state: {:?}", recipient_state);
    assert_eq!(recipient_state.peers.len(), 3);
    assert_eq!(recipient_state.peers[2].version, 0);
}

#[test]
fn test_sync_delete_not_updated() {
    let foreign_state = NetworkState {
        sender: "sender".to_owned(),
        peers: vec![
            PeerState { // Recipient peer
                id: "recipient".to_owned(),
                version: 1,
                heartbeat: 10,
                payload: None,
                updated: None,
            },
            PeerState { // Sender peer
                id: "sender".to_owned(),
                version: 2,
                heartbeat: 10,
                payload: None,
                updated: None,
            },
        ],
    };

    let mut recipient_state = NetworkState {
        sender: "recipient".to_owned(),
        peers: vec![
            PeerState {
                id: "recipient".to_owned(),
                version: 1,
                heartbeat: 1,
                payload: None,
                updated: None,
            },
            PeerState {
                id: "sender".to_owned(),
                version: 1,
                heartbeat: 10,
                payload: None,
                updated: None,
            },
            PeerState { // Alive peer
                id: "peer3".to_owned(),
                version: 3,
                heartbeat: 10,
                payload: None,
                updated: None,
            },
            PeerState { // Dead peer
                id: "peer4".to_owned(),
                version: 4,
                heartbeat: 7,
                payload: None,
                updated: None,
            },
            PeerState { // Alive peer
                id: "peer5".to_owned(),
                version: 5,
                heartbeat: 10,
                payload: None,
                updated: None,
            },
            PeerState { // Dead peer
                id: "peer6".to_owned(),
                version: 5,
                heartbeat: 8,
                payload: None,
                updated: None,
            },
        ],
    };

    sync_state(&foreign_state, &mut recipient_state, 2, 11);
    println!("Recipient state: {:?}", recipient_state);
    assert_eq!(recipient_state.peers.len(), 4);
    assert_eq!(recipient_state.peers[2].id, "peer3");
    assert_eq!(recipient_state.peers[3].id, "peer5");
}

fn peer(id: &str, version: u64, heartbeat: u64, payload: Option<&str>) -> PeerState {
    PeerState {
        id: id.to_owned(),
        version,
        heartbeat,
        payload: payload.map(|text| text.to_owned()),
        updated: None,
    }
}

fn view(sender: &str, peers: Vec<PeerState>) -> NetworkState {
    NetworkState { sender: sender.to_owned(), peers }
}

fn ids(state: &NetworkState) -> Vec<String> {
    state.peers.iter().map(|p| p.id.clone()).collect()
}

#[test]
fn init_from_sender_takes_sender_over_as_it_is() {
    let foreign = view("S", vec![peer("S", 1, 10, Some("m"))]);
    let mut local = view("R", vec![peer("R", 2, 1, None)]);

    let notices = sync_state(&foreign, &mut local, 2, 12);

    assert_eq!(local, view("R", vec![peer("R", 2, 12, None), peer("S", 1, 10, Some("m"))]));
    assert_eq!(notices, vec![Notice { from: "S".to_owned(), message: "m".to_owned() }]);
}

#[test]
fn third_party_is_added_from_scratch_when_alive_and_skipped_when_dead() {
    let foreign = view(
        "S",
        vec![peer("S", 1, 10, None), peer("peer3", 4, 10, Some("third")), peer("peer4", 4, 8, None)],
    );
    let mut local = view("R", vec![peer("R", 1, 1, None)]);

    let notices = sync_state(&foreign, &mut local, 2, 12);

    assert_eq!(
        local,
        view("R", vec![peer("R", 1, 12, None), peer("S", 1, 10, None), peer("peer3", 0, 10, None)])
    );
    assert!(notices.is_empty());
}

#[test]
fn third_party_update_needs_higher_version_and_later_heartbeat() {
    let foreign = view("S", vec![peer("S", 1, 10, None), peer("peer3", 3, 10, Some("new"))]);
    let mut local = view(
        "R",
        vec![peer("R", 1, 1, None), peer("S", 1, 10, None), peer("peer3", 2, 9, Some("old"))],
    );

    let notices = sync_state(&foreign, &mut local, 2, 11);

    assert_eq!(local.peers[2], peer("peer3", 3, 10, Some("new")));
    assert_eq!(notices, vec![Notice { from: "peer3".to_owned(), message: "new".to_owned() }]);
}

#[test]
fn third_party_higher_version_with_stale_heartbeat_is_rejected() {
    let foreign = view("S", vec![peer("S", 1, 10, None), peer("peer3", 3, 9, Some("new"))]);
    let mut local = view(
        "R",
        vec![peer("R", 1, 1, None), peer("S", 1, 10, None), peer("peer3", 2, 9, Some("old"))],
    );

    let notices = sync_state(&foreign, &mut local, 2, 11);

    assert_eq!(local.peers[2], peer("peer3", 2, 9, Some("old")));
    assert!(notices.is_empty());
}

#[test]
fn untouched_dead_entry_is_evicted() {
    let foreign = view("S", vec![peer("S", 1, 10, None)]);
    let mut local = view("R", vec![peer("R", 1, 1, None), peer("peer6", 5, 8, None)]);

    sync_state(&foreign, &mut local, 2, 11);

    assert_eq!(ids(&local), vec!["R", "S"]);
}

#[test]
fn untouched_live_entry_is_retained() {
    let foreign = view("S", vec![peer("S", 1, 10, None)]);
    let mut local = view("R", vec![peer("R", 1, 1, None), peer("peer5", 5, 10, None)]);

    sync_state(&foreign, &mut local, 2, 11);

    assert_eq!(ids(&local), vec!["R", "peer5", "S"]);
    assert_eq!(local.peers[1], peer("peer5", 5, 10, None));
}

#[test]
fn entry_on_the_edge_of_the_alive_window_is_retained() {
    let foreign = view("S", vec![]);
    let mut local =
        view("R", vec![peer("R", 0, 0, None), peer("edge", 1, 9, None), peer("past", 1, 8, None)]);

    sync_state(&foreign, &mut local, 2, 11);

    assert_eq!(ids(&local), vec!["R", "edge"]);
}

#[test]
fn known_sender_is_refreshed_even_without_a_new_version() {
    let foreign = view("S", vec![peer("S", 3, 4, Some("same"))]);
    let mut local = view("R", vec![peer("R", 1, 1, None), peer("S", 3, 1, Some("kept"))]);

    let notices = sync_state(&foreign, &mut local, 2, 50);

    assert_eq!(local.peers[1], peer("S", 3, 50, Some("kept")));
    assert!(notices.is_empty());
}

#[test]
fn known_sender_with_higher_version_is_adopted_whatever_its_heartbeat() {
    let foreign = view("S", vec![peer("S", 4, 0, Some("fresh"))]);
    let mut local = view("R", vec![peer("R", 1, 1, None), peer("S", 3, 9, Some("kept"))]);

    let notices = sync_state(&foreign, &mut local, 2, 50);

    assert_eq!(local.peers[1], peer("S", 4, 50, Some("fresh")));
    assert_eq!(notices, vec![Notice { from: "S".to_owned(), message: "fresh".to_owned() }]);
}

#[test]
fn adopted_version_without_payload_gives_no_notice() {
    let foreign = view("S", vec![peer("S", 4, 0, None)]);
    let mut local = view("R", vec![peer("R", 1, 1, None), peer("S", 3, 9, Some("kept"))]);

    let notices = sync_state(&foreign, &mut local, 2, 50);

    assert_eq!(local.peers[1], peer("S", 4, 50, None));
    assert!(notices.is_empty());
}

#[test]
fn equal_version_takes_the_later_heartbeat_only() {
    let foreign = view("S", vec![peer("peer3", 2, 10, Some("theirs"))]);
    let mut local = view("R", vec![peer("R", 1, 1, None), peer("peer3", 2, 9, Some("ours"))]);

    sync_state(&foreign, &mut local, 2, 11);

    assert_eq!(local.peers[1], peer("peer3", 2, 10, Some("ours")));
}

#[test]
fn later_heartbeat_alone_does_not_save_a_dead_entry() {
    let foreign = view("S", vec![peer("peer3", 2, 5, None)]);
    let mut local = view("R", vec![peer("R", 1, 1, None), peer("peer3", 2, 1, None)]);

    sync_state(&foreign, &mut local, 2, 11);

    assert_eq!(ids(&local), vec!["R"]);
}

#[test]
fn adopted_entry_stays_for_this_merge_though_its_heartbeat_is_old() {
    let foreign = view("S", vec![peer("peer3", 3, 5, None)]);
    let mut local = view("R", vec![peer("R", 1, 1, None), peer("peer3", 2, 1, None)]);

    sync_state(&foreign, &mut local, 2, 11);

    assert_eq!(local.peers, vec![peer("R", 1, 11, None), peer("peer3", 3, 5, None)]);
}

#[test]
fn lower_version_is_ignored() {
    let foreign = view("S", vec![peer("peer3", 1, 10, Some("older"))]);
    let mut local = view("R", vec![peer("R", 1, 1, None), peer("peer3", 2, 9, Some("ours"))]);

    sync_state(&foreign, &mut local, 2, 11);

    assert_eq!(local.peers[1], peer("peer3", 2, 9, Some("ours")));
}

#[test]
fn own_entry_is_stamped_with_now_and_never_dropped() {
    let foreign = view("S", vec![]);
    let mut local = view("R", vec![peer("R", 7, 0, Some("mine"))]);

    sync_state(&foreign, &mut local, 0, 1_000_000);

    assert_eq!(local, view("R", vec![peer("R", 7, 1_000_000, Some("mine"))]));
}

#[test]
fn marks_are_cleared_and_marks_on_entry_are_disregarded() {
    let foreign = view("S", vec![peer("S", 1, 10, None)]);
    let mut stale = peer("stale", 5, 1, None);
    stale.updated = Some(true);
    let mut live = peer("live", 5, 10, None);
    live.updated = Some(false);
    let mut local = view("R", vec![peer("R", 1, 1, None), stale, live]);

    sync_state(&foreign, &mut local, 2, 11);

    assert_eq!(ids(&local), vec!["R", "live", "S"]);
    assert!(local.peers.iter().all(|p| p.updated.is_none()));
}

#[test]
fn mark_in_the_message_is_not_trusted() {
    let mut reported = peer("peer4", 4, 8, None);
    reported.updated = Some(true);
    let foreign = view("S", vec![reported]);
    let mut local = view("R", vec![peer("R", 1, 1, None)]);

    sync_state(&foreign, &mut local, 2, 12);

    assert_eq!(ids(&local), vec!["R"]);
}

#[test]
fn ids_stay_unique_when_the_message_names_a_peer_twice() {
    let foreign = view(
        "S",
        vec![peer("peer3", 3, 10, Some("first")), peer("peer3", 4, 11, Some("second"))],
    );
    let mut local = view("R", vec![peer("R", 1, 1, None)]);

    let notices = sync_state(&foreign, &mut local, 2, 11);

    assert_eq!(local.peers, vec![peer("R", 1, 11, None), peer("peer3", 4, 11, Some("second"))]);
    assert_eq!(notices, vec![Notice { from: "peer3".to_owned(), message: "second".to_owned() }]);
}

#[test]
fn versions_never_go_down() {
    let foreign = view(
        "S",
        vec![peer("S", 1, 10, None), peer("a", 1, 20, None), peer("b", 9, 20, None), peer("R", 0, 20, None)],
    );
    let mut local = view(
        "R",
        vec![peer("R", 3, 1, None), peer("S", 5, 10, None), peer("a", 4, 10, None), peer("b", 2, 10, None)],
    );

    sync_state(&foreign, &mut local, 2, 11);

    let versions: Vec<u64> = local.peers.iter().map(|p| p.version).collect();
    assert_eq!(ids(&local), vec!["R", "S", "a", "b"]);
    assert_eq!(versions, vec![3, 5, 4, 9]);
}

#[test]
fn second_merge_of_the_same_message_changes_nothing() {
    let foreign = view(
        "S",
        vec![peer("S", 2, 12, Some("s2")), peer("peer3", 3, 11, Some("third")), peer("peer4", 1, 11, None)],
    );
    let mut local = view(
        "R",
        vec![peer("R", 1, 1, None), peer("peer3", 2, 10, None), peer("peer5", 1, 11, None)],
    );

    sync_state(&foreign, &mut local, 2, 12);
    let once = local.clone();
    let notices = sync_state(&foreign, &mut local, 2, 12);

    assert_eq!(local, once);
    assert!(notices.is_empty());
}

#[test]
fn second_merge_refreshes_a_sender_met_for_the_first_time() {
    let foreign = view("S", vec![peer("S", 1, 10, Some("m"))]);
    let mut local = view("R", vec![peer("R", 2, 1, None)]);

    sync_state(&foreign, &mut local, 2, 12);
    assert_eq!(local.peers[1], peer("S", 1, 10, Some("m")));
    sync_state(&foreign, &mut local, 2, 12);
    assert_eq!(local.peers[1], peer("S", 1, 12, Some("m")));
}

#[test]
fn heartbeat_near_the_largest_number_does_not_overflow() {
    let foreign = view("S", vec![peer("far", 1, u64::MAX, None)]);
    let mut local = view("R", vec![peer("R", 1, 1, None), peer("near", 1, u64::MAX - 1, None)]);

    sync_state(&foreign, &mut local, u64::MAX, 3);

    assert_eq!(
        local.peers,
        vec![peer("R", 1, 3, None), peer("near", 1, u64::MAX - 1, None), peer("far", 0, u64::MAX, None)]
    );
}

#[test]
fn alive_is_heartbeat_plus_window_not_before_now() {
    assert!(is_alive(1, 2, 3));
    assert!(!is_alive(0, 2, 3));
    assert!(is_alive(10, 0, 10));
    assert!(!is_alive(9, 0, 10));
    assert!(is_alive(11, 0, 10));
    assert!(is_alive(u64::MAX, u64::MAX, 0));
    assert!(is_alive(0, u64::MAX, u64::MAX));
    assert!(!is_alive(0, u64::MAX - 1, u64::MAX));
}

#[test]
fn second_merge_drops_an_adopted_entry_whose_heartbeat_is_old() {
    let foreign = view("S", vec![peer("S", 1, 11, None), peer("peer3", 3, 5, None)]);
    let mut local =
        view("R", vec![peer("R", 1, 1, None), peer("S", 1, 11, None), peer("peer3", 2, 1, None)]);

    sync_state(&foreign, &mut local, 2, 11);
    assert_eq!(ids(&local), vec!["R", "S", "peer3"]);
    sync_state(&foreign, &mut local, 2, 11);
    assert_eq!(ids(&local), vec!["R", "S"]);
}

#[test]
fn second_merge_brings_back_from_scratch_a_peer_that_the_first_dropped() {
    let foreign = view("S", vec![peer("S", 1, 11, None), peer("peer3", 3, 10, Some("theirs"))]);
    let mut local = view(
        "R",
        vec![peer("R", 1, 1, None), peer("S", 1, 11, None), peer("peer3", 5, 1, Some("ours"))],
    );

    sync_state(&foreign, &mut local, 2, 11);
    assert_eq!(ids(&local), vec!["R", "S"]);
    sync_state(&foreign, &mut local, 2, 11);
    assert_eq!(local.peers[2], peer("peer3", 0, 10, None));
}

#[test]
fn second_merge_adopts_a_report_about_the_node_stamped_after_now() {
    let foreign = view("S", vec![peer("S", 1, 11, None), peer("R", 2, 50, Some("theirs"))]);
    let mut local = view("R", vec![peer("R", 1, 100, None), peer("S", 1, 11, None)]);

    sync_state(&foreign, &mut local, 2, 11);
    assert_eq!(local.peers[0], peer("R", 1, 11, None));
    sync_state(&foreign, &mut local, 2, 11);
    assert_eq!(local.peers[0], peer("R", 2, 11, Some("theirs")));
}

#[test]
fn second_merge_adopts_a_report_about_a_node_that_had_no_entry_of_its_own() {
    let foreign = view("S", vec![peer("S", 1, 11, None), peer("R", 2, 50, Some("theirs"))]);
    let mut local = view("R", vec![peer("S", 1, 11, None)]);

    sync_state(&foreign, &mut local, 2, 11);
    assert_eq!(local.peers, vec![peer("S", 1, 11, None), peer("R", 0, 11, None)]);
    sync_state(&foreign, &mut local, 2, 11);
    assert_eq!(local.peers, vec![peer("S", 1, 11, None), peer("R", 2, 11, Some("theirs"))]);
}

#[test]
fn merge_puts_the_node_into_a_view_that_lacks_it_only_when_the_message_names_it() {
    let mut local = view("R", vec![peer("S", 1, 11, None)]);
    sync_state(&view("S", vec![peer("S", 1, 11, None)]), &mut local, 2, 11);
    assert_eq!(ids(&local), vec!["S"]);
}
