//! The data every node keeps about the network, and the clock that stamps it.

use std::time::Duration;
use std::time::SystemTime;
use std::time::UNIX_EPOCH;
use vstd::prelude::*;

verus! {

/// A reading of the system clock; nothing is known of what it holds.
#[verifier::external_type_specification]
#[verifier::external_body]
pub struct ExSystemTime(std::time::SystemTime);

/// `SystemTime::now`: the system clock as it reads when the call is made.
/// The reading depends on the machine, so nothing is claimed of it.
#[verifier::external_body]
fn clock_reading() -> (reading: SystemTime) {
    SystemTime::now()
}

/// `SystemTime::duration_since`, measured from `UNIX_EPOCH`: the time that
/// lies between the epoch and `reading`, or `None` where `reading` lies
/// before the epoch. Nothing is claimed of the length.
#[verifier::external_body]
fn since_epoch(reading: &SystemTime) -> (elapsed: Option<Duration>) {
    match reading.duration_since(UNIX_EPOCH) {
        Ok(elapsed) => Some(elapsed),
        Err(_) => None,
    }
}

/// `Duration::as_secs`: the whole seconds of `span`. No spec function
/// stands for the length of a `Duration` here, so nothing is claimed.
#[verifier::external_body]
fn whole_seconds(span: &Duration) -> (seconds: u64) {
    span.as_secs()
}

/// Seconds since the epoch by the system clock: the stamp that heartbeats
/// carry. A clock that is set before the epoch reads as 0; a caller that
/// must not go on with such a clock asks `seconds_since_epoch` instead.
pub fn now() -> (seconds: u64) {
    stamp_of(seconds_since_epoch())
}

/// The stamp for a clock that reads `elapsed` whole seconds after the
/// epoch, or, where `elapsed` is `None`, reads a time before the epoch:
/// the seconds as they are, and 0 for every time before the epoch.
pub fn stamp_of(elapsed: Option<u64>) -> (seconds: u64)
    ensures
        seconds == match elapsed {
            Some(whole) => whole,
            None => 0,
        },
{
    match elapsed {
        Some(whole) => whole,
        None => 0,
    }
}

/// One reading of the system clock, in whole seconds since the epoch, or
/// `None` where the clock is set before the epoch. The reading depends on
/// the machine, so nothing more is said of it.
pub fn seconds_since_epoch() -> (elapsed: Option<u64>) {
    let reading = clock_reading();
    match since_epoch(&reading) {
        Some(span) => Some(whole_seconds(&span)),
        None => None,
    }
}

/// What is known about one peer, as plain mathematical values.
pub struct PeerView {
    pub id: Seq<char>,
    pub version: nat,
    pub heartbeat: nat,
    pub payload: Option<Seq<char>>,
    pub updated: Option<bool>,
}

/// One entry of a node's view of the network.
#[derive(Debug, PartialEq, Eq)]
pub struct PeerState {
    /// Address of the peer (`host:port`); the key of the entry.
    pub id: String,
    /// Counter owned by the peer itself; it grows with every payload it attaches.
    pub version: u64,
    /// Seconds since the epoch at which the peer was last seen alive.
    pub heartbeat: u64,
    /// Payload that belongs to `version`, if the peer has sent one.
    pub payload: Option<String>,
    /// Mark used while two views are merged; it carries no meaning between merges.
    pub updated: Option<bool>,
}

impl View for PeerState {
    type V = PeerView;

    open spec fn view(&self) -> PeerView {
        PeerView {
            id: self.id@,
            version: self.version as nat,
            heartbeat: self.heartbeat as nat,
            payload: optional_text(self.payload),
            updated: self.updated,
        }
    }
}

impl Clone for PeerState {
    fn clone(&self) -> (copy: Self)
        ensures
            copy@ == self@,
    {
        let payload = match &self.payload {
            Some(text) => Some(text.clone()),
            None => None,
        };
        PeerState {
            id: self.id.clone(),
            version: self.version,
            heartbeat: self.heartbeat,
            payload,
            updated: self.updated,
        }
    }
}

/// A node's view of the network, as plain mathematical values.
pub struct NetworkView {
    pub sender: Seq<char>,
    pub peers: Seq<PeerView>,
}

/// The view of the network that one node holds, or that one message carries.
#[derive(Debug, PartialEq, Eq)]
pub struct NetworkState {
    /// Address of the node that wrote this state.
    pub sender: String,
    /// Everything the writer knows, one entry for each peer.
    pub peers: Vec<PeerState>,
}

/// The entries of a list of peers, each taken by its view.
pub open spec fn peer_views(peers: Seq<PeerState>) -> Seq<PeerView> {
    peers.map_values(|p: PeerState| p@)
}

impl View for NetworkState {
    type V = NetworkView;

    open spec fn view(&self) -> NetworkView {
        NetworkView { sender: self.sender@, peers: peer_views(self.peers@) }
    }
}

/// The texts of a list of strings.
pub open spec fn texts(items: Seq<String>) -> Seq<Seq<char>> {
    items.map_values(|s: String| s@)
}

/// The text of a string that may be absent.
pub open spec fn optional_text(text: Option<String>) -> Option<Seq<char>> {
    match text {
        Some(text) => Some(text@),
        None => None,
    }
}

/// The view of a state that may be absent.
pub open spec fn optional_view(state: Option<NetworkState>) -> Option<NetworkView> {
    match state {
        Some(state) => Some(state@),
        None => None,
    }
}

impl Clone for NetworkState {
    fn clone(&self) -> (copy: Self)
        ensures
            copy@ == self@,
    {
        let mut peers: Vec<PeerState> = Vec::new();
        let mut i: usize = 0;
        while i < self.peers.len()
            invariant
                i <= self.peers.len(),
                peers.len() == i,
                forall|j: int| 0 <= j < i ==> peers[j]@ == self.peers[j]@,
            decreases self.peers.len() - i,
        {
            peers.push(self.peers[i].clone());
            i += 1;
        }
        let copy = NetworkState { sender: self.sender.clone(), peers };
        assert(copy@.peers =~= self@.peers);
        copy
    }
}

/// Some entry of `peers` is about the peer `id`.
pub open spec fn knows(peers: Seq<PeerView>, id: Seq<char>) -> bool {
    exists|i: int| 0 <= i < peers.len() && (#[trigger] peers[i]).id == id
}

/// `i` is the place of the first entry of `peers` about the peer `id`.
pub open spec fn is_first_with_id(peers: Seq<PeerView>, id: Seq<char>, i: int) -> bool {
    &&& 0 <= i < peers.len()
    &&& peers[i].id == id
    &&& forall|j: int| 0 <= j < i ==> (#[trigger] peers[j]).id != id
}

/// The place of the first entry of `peers` about the peer `id`, where there is one.
pub open spec fn first_with_id(peers: Seq<PeerView>, id: Seq<char>) -> int {
    choose|i: int| is_first_with_id(peers, id, i)
}

/// No two entries of `peers` are about the same peer.
pub open spec fn distinct_ids(peers: Seq<PeerView>) -> bool {
    forall|i: int, j: int|
        0 <= i < j < peers.len() ==> (#[trigger] peers[i]).id != (#[trigger] peers[j]).id
}

impl NetworkView {
    /// The view is one that a node may hold: no two entries are about the
    /// same peer, and one entry is about the node itself.
    pub open spec fn well_formed(self) -> bool {
        distinct_ids(self.peers) && knows(self.peers, self.sender)
    }
}

/// The first entry about a peer is the only place `first_with_id` can name.
pub proof fn lemma_first_with_id(peers: Seq<PeerView>, id: Seq<char>, i: int)
    requires
        is_first_with_id(peers, id, i),
    ensures
        knows(peers, id),
        first_with_id(peers, id) == i,
{
    let c = first_with_id(peers, id);
    assert(is_first_with_id(peers, id, c));
    if c < i {
        assert(peers[c].id != id);
    } else if i < c {
        assert(peers[i].id != id);
    }
}

/// An entry that is known has a first place.
pub proof fn lemma_known_has_first(peers: Seq<PeerView>, id: Seq<char>)
    requires
        knows(peers, id),
    ensures
        is_first_with_id(peers, id, first_with_id(peers, id)),
{
    let w = choose|i: int| 0 <= i < peers.len() && (#[trigger] peers[i]).id == id;
    lemma_first_exists_up_to(peers, id, w);
}

/// Below a place that holds `id` there is a first place that holds it.
proof fn lemma_first_exists_up_to(peers: Seq<PeerView>, id: Seq<char>, w: int)
    requires
        0 <= w < peers.len(),
        peers[w].id == id,
    ensures
        exists|i: int| is_first_with_id(peers, id, i),
    decreases w,
{
    if exists|j: int| 0 <= j < w && (#[trigger] peers[j]).id == id {
        let j = choose|j: int| 0 <= j < w && (#[trigger] peers[j]).id == id;
        lemma_first_exists_up_to(peers, id, j);
    } else {
        assert(is_first_with_id(peers, id, w));
    }
}

/// How the first entry about a peer in a list relates to the list without
/// its last entry.
pub proof fn lemma_first_with_id_step(peers: Seq<PeerView>, id: Seq<char>)
    requires
        peers.len() > 0,
    ensures
        knows(peers.drop_last(), id) ==> knows(peers, id) && first_with_id(peers, id)
            == first_with_id(peers.drop_last(), id),
        !knows(peers.drop_last(), id) && peers.last().id == id ==> knows(peers, id)
            && first_with_id(peers, id) == peers.len() - 1,
        !knows(peers.drop_last(), id) && peers.last().id != id ==> !knows(peers, id),
{
    let rest = peers.drop_last();
    if knows(rest, id) {
        lemma_known_has_first(rest, id);
        let i = first_with_id(rest, id);
        assert(is_first_with_id(peers, id, i)) by {
            assert(peers[i] == rest[i]);
            assert forall|j: int| 0 <= j < i implies (#[trigger] peers[j]).id != id by {
                assert(rest[j].id != id);
            }
        }
        lemma_first_with_id(peers, id, i);
    } else if peers.last().id == id {
        assert(is_first_with_id(peers, id, peers.len() - 1)) by {
            assert forall|j: int| 0 <= j < peers.len() - 1 implies (#[trigger] peers[j]).id
                != id by {
                assert(rest[j].id == peers[j].id);
            }
        }
        lemma_first_with_id(peers, id, peers.len() - 1);
    } else {
        if knows(peers, id) {
            let w = choose|w: int| 0 <= w < peers.len() && (#[trigger] peers[w]).id == id;
            assert(rest[w].id == id);
        }
    }
}

/// Distinct entries stay distinct when the last one is left out.
pub proof fn lemma_distinct_ids_step(peers: Seq<PeerView>)
    requires
        peers.len() > 0,
        distinct_ids(peers),
    ensures
        distinct_ids(peers.drop_last()),
        !knows(peers.drop_last(), peers.last().id),
{
    let rest = peers.drop_last();
    assert forall|i: int, j: int| 0 <= i < j < rest.len() implies (#[trigger] rest[i]).id != (
    #[trigger] rest[j]).id by {
        assert(peers[i].id != peers[j].id);
    }
    if knows(rest, peers.last().id) {
        let w = choose|w: int| 0 <= w < rest.len() && (#[trigger] rest[w]).id == peers.last().id;
        assert(peers[w].id != peers[peers.len() - 1].id);
    }
}

/// Among distinct entries, an entry about a peer is the first about it.
pub proof fn lemma_distinct_first(peers: Seq<PeerView>, i: int)
    requires
        distinct_ids(peers),
        0 <= i < peers.len(),
    ensures
        knows(peers, peers[i].id),
        first_with_id(peers, peers[i].id) == i,
{
    assert(is_first_with_id(peers, peers[i].id, i)) by {
        assert forall|j: int| 0 <= j < i implies (#[trigger] peers[j]).id != peers[i].id by {
            assert(peers[j].id != peers[i].id);
        }
    }
    lemma_first_with_id(peers, peers[i].id, i);
}

/// Looks for the first entry about the peer `id`.
pub fn find_peer(peers: &Vec<PeerState>, id: &String) -> (found: Option<usize>)
    ensures
        match found {
            Some(i) => is_first_with_id(peer_views(peers@), id@, i as int),
            None => !knows(peer_views(peers@), id@),
        },
{
    let mut i: usize = 0;
    while i < peers.len()
        invariant
            i <= peers.len(),
            forall|j: int| 0 <= j < i ==> (#[trigger] peer_views(peers@)[j]).id != id@,
        decreases peers.len() - i,
    {
        if peers[i].id == *id {
            return Some(i);
        }
        i += 1;
    }
    None
}

/// Seconds after its last heartbeat for which a peer still counts as alive.
pub const PEER_ALIVE_DURATION_SEC: u64 = 2;

/// The entry of a peer of which nothing but its address is known.
pub open spec fn unheard(id: Seq<char>) -> PeerView {
    PeerView { id, version: 0, heartbeat: 0, payload: None, updated: None }
}

/// The view that a node starts with: itself, and the seed peer where one
/// is named. An empty `seed_node` names none.
pub open spec fn initial_view(local_addr: Seq<char>, seed_node: Seq<char>) -> NetworkView {
    NetworkView {
        sender: local_addr,
        peers: if seed_node.len() == 0 {
            seq![unheard(local_addr)]
        } else {
            seq![unheard(local_addr), unheard(seed_node)]
        },
    }
}

/// The state that a node at `local_addr` starts with. Where `seed_node` is
/// not empty it is the address of the peer through which the node joins.
pub fn initial_state(local_addr: String, seed_node: String) -> (state: NetworkState)
    ensures
        state@ == initial_view(local_addr@, seed_node@),
        seed_node@ != local_addr@ ==> state@.well_formed(),
{
    let mut state = NetworkState { sender: local_addr.clone(), peers: Vec::new() };
    state.peers.push(
        PeerState { id: local_addr, version: 0, heartbeat: 0, payload: None, updated: None },
    );
    if !seed_node.as_str().is_empty() {
        state.peers.push(
            PeerState { id: seed_node, version: 0, heartbeat: 0, payload: None, updated: None },
        );
    }
    assert(state@.peers =~= initial_view(local_addr@, seed_node@).peers);
    assert(state@.peers[0].id == local_addr@);
    state
}

} // verus!
