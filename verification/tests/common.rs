use gossip::common::find_peer;
use gossip::common::initial_state;
use gossip::common::now;
use gossip::common::seconds_since_epoch;
use gossip::common::stamp_of;
use gossip::common::NetworkState;
use gossip::common::PeerState;
use gossip::common::PEER_ALIVE_DURATION_SEC;

#[test]
fn test_now() {
    let n = now();
    println!("{}", n);
    assert!(now() > 1696090587);
}

fn unheard(id: &str) -> PeerState {
    PeerState { id: id.to_owned(), version: 0, heartbeat: 0, payload: None, updated: None }
}

#[test]
fn node_starts_with_itself_and_its_seed() {
    let state = initial_state("127.0.0.1:8001".to_owned(), "127.0.0.1:8000".to_owned());
    assert_eq!(
        state,
        NetworkState {
            sender: "127.0.0.1:8001".to_owned(),
            peers: vec![unheard("127.0.0.1:8001"), unheard("127.0.0.1:8000")],
        }
    );
}

#[test]
fn seed_node_starts_with_itself_alone() {
    let state = initial_state("127.0.0.1:8000".to_owned(), "".to_owned());
    assert_eq!(
        state,
        NetworkState { sender: "127.0.0.1:8000".to_owned(), peers: vec![unheard("127.0.0.1:8000")] }
    );
}

#[test]
fn alive_window_is_two_seconds() {
    assert_eq!(PEER_ALIVE_DURATION_SEC, 2);
}

#[test]
fn clone_is_equal_in_every_field() {
    let state = NetworkState {
        sender: "a".to_owned(),
        peers: vec![
            PeerState {
                id: "a".to_owned(),
                version: 3,
                heartbeat: 4,
                payload: Some("text".to_owned()),
                updated: Some(false),
            },
            unheard("b"),
        ],
    };
    assert_eq!(state.clone(), state);
    assert_eq!(state.peers[0].clone(), state.peers[0]);
}

#[test]
fn find_peer_gives_the_first_place_of_an_id() {
    let peers = vec![unheard("a"), unheard("b"), unheard("a")];
    assert_eq!(find_peer(&peers, &"a".to_owned()), Some(0));
    assert_eq!(find_peer(&peers, &"b".to_owned()), Some(1));
    assert_eq!(find_peer(&peers, &"c".to_owned()), None);
    assert_eq!(find_peer(&Vec::new(), &"a".to_owned()), None);
}

#[test]
fn clock_does_not_run_backwards_between_two_readings() {
    let first = now();
    let second = now();
    assert!(second >= first);
    assert!(second - first < 60);
}

#[test]
fn stamp_is_the_seconds_after_the_epoch_and_zero_before_it() {
    assert_eq!(stamp_of(Some(1696090587)), 1696090587);
    assert_eq!(stamp_of(Some(0)), 0);
    assert_eq!(stamp_of(Some(u64::MAX)), u64::MAX);
    assert_eq!(stamp_of(None), 0);
}

#[test]
fn clock_of_this_machine_reads_after_the_epoch() {
    let before = now();
    let reading = seconds_since_epoch();
    let after = now();
    assert!(reading.is_some());
    assert!(reading.unwrap() > 1696090587);
    assert!(before <= reading.unwrap() && reading.unwrap() <= after);
}
