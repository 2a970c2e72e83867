use gossip::common::NetworkState;
use gossip::common::PeerState;
use gossip::listener::respond;
use gossip::sync::Notice;

fn peer(id: &str, version: u64, heartbeat: u64, payload: Option<&str>) -> PeerState {
    PeerState {
        id: id.to_owned(),
        version,
        heartbeat,
        payload: payload.map(|text| text.to_owned()),
        updated: None,
    }
}

fn view(sender: &str, peers: Vec<PeerState>) -> NetworkState {
    NetworkState { sender: sender.to_owned(), peers }
}

#[test]
fn answer_is_the_state_after_the_merge() {
    let received = view("S", vec![peer("S", 1, 10, Some("m")), peer("old", 4, 1, None)]);
    let mut local = view("R", vec![peer("R", 2, 1, None), peer("gone", 1, 1, None)]);

    let (answer, notices) = respond(&received, &mut local, 2, 12);

    let expected = view("R", vec![peer("R", 2, 12, None), peer("S", 1, 10, Some("m"))]);
    assert_eq!(local, expected);
    assert_eq!(answer, expected);
    assert_eq!(notices, vec![Notice { from: "S".to_owned(), message: "m".to_owned() }]);
}
