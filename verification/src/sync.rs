//! Merging the view that another node sent into the view held here.

use vstd::prelude::*;

use crate::common::{
    distinct_ids, find_peer, first_with_id, knows, lemma_first_with_id, peer_views, NetworkState,
    NetworkView, PeerState, PeerView,
};
use crate::sync_laws::{lemma_merge_settles, lemma_merge_stays_distinct, lemma_merge_well_formed};

verus! {

/// A peer last seen at `heartbeat` still counts as alive at `now`.
pub open spec fn still_alive(heartbeat: nat, alive_duration: nat, now: nat) -> bool {
    heartbeat + alive_duration >= now
}

/// The entry `p` without a mark.
pub open spec fn unmarked(p: PeerView) -> PeerView {
    PeerView { updated: None, ..p }
}

/// The entries of `peers`, none of them marked.
pub open spec fn unmarked_all(peers: Seq<PeerView>) -> Seq<PeerView> {
    peers.map_values(|p: PeerView| unmarked(p))
}

/// The report `f` replaces version and payload of the entry `r`.
///
/// A peer that reports itself needs a higher version only. A report about a
/// third party must also carry a later heartbeat: a higher version alone may
/// come from a node that remembers a peer which has died since.
pub open spec fn adopts(r: PeerView, f: PeerView, from_owner: bool) -> bool {
    f.version > r.version && (from_owner || f.heartbeat > r.heartbeat)
}

/// The entry `r` after the report `f` about the same peer was read.
pub open spec fn reconciled(r: PeerView, f: PeerView, from_owner: bool, now: nat) -> PeerView {
    if adopts(r, f, from_owner) {
        PeerView {
            id: r.id,
            version: f.version,
            heartbeat: if from_owner { now } else { f.heartbeat },
            payload: f.payload,
            updated: Some(true),
        }
    } else if from_owner {
        PeerView { heartbeat: now, ..r }
    } else if f.version == r.version && f.heartbeat > r.heartbeat {
        PeerView { heartbeat: f.heartbeat, ..r }
    } else {
        r
    }
}

/// The entry made for a peer that was not known before the report `f`.
///
/// The sender of a message is taken over as it describes itself. A third
/// party starts from version 0 without payload, whatever the reporter
/// claims: its true state is learnt from the peer itself later.
pub open spec fn newcomer(f: PeerView, from_owner: bool) -> PeerView {
    if from_owner {
        PeerView { updated: Some(true), ..f }
    } else {
        PeerView {
            id: f.id,
            version: 0,
            heartbeat: f.heartbeat,
            payload: None,
            updated: Some(true),
        }
    }
}

/// The entries `local` after one report `f` of a message from `sender`.
pub open spec fn absorbed(
    local: Seq<PeerView>,
    f: PeerView,
    sender: Seq<char>,
    alive_duration: nat,
    now: nat,
) -> Seq<PeerView> {
    let from_owner = f.id == sender;
    if knows(local, f.id) {
        let i = first_with_id(local, f.id);
        local.update(i, reconciled(local[i], f, from_owner, now))
    } else if from_owner || still_alive(f.heartbeat, alive_duration, now) {
        local.push(newcomer(f, from_owner))
    } else {
        local
    }
}

/// The entries `local` after the reports `incoming`, read in their order.
pub open spec fn absorbed_all(
    local: Seq<PeerView>,
    incoming: Seq<PeerView>,
    sender: Seq<char>,
    alive_duration: nat,
    now: nat,
) -> Seq<PeerView>
    decreases incoming.len(),
{
    if incoming.len() == 0 {
        local
    } else {
        absorbed(
            absorbed_all(local, incoming.drop_last(), sender, alive_duration, now),
            incoming.last(),
            sender,
            alive_duration,
            now,
        )
    }
}

/// The entry `p` stays when the merge ends: it is the node's own, it was
/// marked, or its heartbeat is recent enough.
pub open spec fn retained(p: PeerView, me: Seq<char>, alive_duration: nat, now: nat) -> bool {
    p.id == me || p.updated == Some(true) || still_alive(p.heartbeat, alive_duration, now)
}

/// The entry `p` as the merge leaves it: without mark, and stamped with
/// `now` where it is the node's own.
pub open spec fn settled(p: PeerView, me: Seq<char>, now: nat) -> PeerView {
    PeerView { heartbeat: if p.id == me { now } else { p.heartbeat }, updated: None, ..p }
}

/// The entries of `peers` that stay, in their order, each one settled.
pub open spec fn pruned(
    peers: Seq<PeerView>,
    me: Seq<char>,
    alive_duration: nat,
    now: nat,
) -> Seq<PeerView>
    decreases peers.len(),
{
    if peers.len() == 0 {
        Seq::empty()
    } else {
        let before = pruned(peers.drop_last(), me, alive_duration, now);
        if retained(peers.last(), me, alive_duration, now) {
            before.push(settled(peers.last(), me, now))
        } else {
            before
        }
    }
}

/// The view `local` after the view `foreign` was merged into it at time `now`.
///
/// Marks that `local` carries when the merge begins are disregarded.
pub open spec fn merged(
    local: NetworkView,
    foreign: NetworkView,
    alive_duration: nat,
    now: nat,
) -> NetworkView {
    NetworkView {
        sender: local.sender,
        peers: pruned(
            absorbed_all(
                unmarked_all(local.peers),
                foreign.peers,
                foreign.sender,
                alive_duration,
                now,
            ),
            local.sender,
            alive_duration,
            now,
        ),
    }
}

/// A payload that a merge took over, with the peer it belongs to.
pub struct NoticeView {
    pub from: Seq<char>,
    pub message: Seq<char>,
}

/// A payload that a merge took over, with the peer it belongs to.
#[derive(Debug, PartialEq, Eq)]
pub struct Notice {
    /// The peer that owns the payload.
    pub from: String,
    /// The payload.
    pub message: String,
}

impl View for Notice {
    type V = NoticeView;

    open spec fn view(&self) -> NoticeView {
        NoticeView { from: self.from@, message: self.message@ }
    }
}

/// The notices of a list, each taken by its view.
pub open spec fn notice_views(notices: Seq<Notice>) -> Seq<NoticeView> {
    notices.map_values(|n: Notice| n@)
}

/// The notice that the report `f` gives rise to, if any: its payload is
/// taken over, for a known peer or for the sender on first contact.
pub open spec fn announced(local: Seq<PeerView>, f: PeerView, sender: Seq<char>) -> Option<
    NoticeView,
> {
    let from_owner = f.id == sender;
    let taken = if knows(local, f.id) {
        adopts(local[first_with_id(local, f.id)], f, from_owner)
    } else {
        from_owner
    };
    match f.payload {
        Some(message) if taken => Some(NoticeView { from: f.id, message }),
        _ => None,
    }
}

/// The notices that the reports `incoming` give rise to, in their order.
pub open spec fn announced_all(
    local: Seq<PeerView>,
    incoming: Seq<PeerView>,
    sender: Seq<char>,
    alive_duration: nat,
    now: nat,
) -> Seq<NoticeView>
    decreases incoming.len(),
{
    if incoming.len() == 0 {
        Seq::empty()
    } else {
        let before = announced_all(local, incoming.drop_last(), sender, alive_duration, now);
        let reached = absorbed_all(local, incoming.drop_last(), sender, alive_duration, now);
        match announced(reached, incoming.last(), sender) {
            Some(notice) => before.push(notice),
            None => before,
        }
    }
}

/// The notices of merging `foreign` into `local`.
pub open spec fn merge_notices(
    local: NetworkView,
    foreign: NetworkView,
    alive_duration: nat,
    now: nat,
) -> Seq<NoticeView> {
    announced_all(unmarked_all(local.peers), foreign.peers, foreign.sender, alive_duration, now)
}

/// Whether a peer last seen at `heartbeat` still counts as alive at `now`.
pub fn is_alive(heartbeat: u64, alive_duration: u64, now: u64) -> (alive: bool)
    ensures
        alive == still_alive(heartbeat as nat, alive_duration as nat, now as nat),
{
    now <= heartbeat || now - heartbeat <= alive_duration
}

/// Reads one report of a message from `sender` into `peers`.
fn absorb(
    peers: &mut Vec<PeerState>,
    fi: &PeerState,
    sender: &String,
    alive_duration: u64,
    now: u64,
) -> (notice: Option<Notice>)
    ensures
        peer_views(final(peers)@) == absorbed(
            peer_views(old(peers)@),
            fi@,
            sender@,
            alive_duration as nat,
            now as nat,
        ),
        match notice {
            Some(n) => announced(peer_views(old(peers)@), fi@, sender@) == Some(n@),
            None => announced(peer_views(old(peers)@), fi@, sender@) is None,
        },
{
    let from_owner = fi.id == *sender;
    let mut taken = false;
    match find_peer(peers, &fi.id) {
        Some(i) => {
            proof {
                lemma_first_with_id(peer_views(peers@), fi.id@, i as int);
            }
            let ri = &mut peers[i];
            if from_owner {
                ri.heartbeat = now;
                if fi.version > ri.version {
                    ri.version = fi.version;
                    ri.payload = fi.payload.clone();
                    ri.updated = Some(true);
                    taken = true;
                }
            } else if fi.version > ri.version {
                if fi.heartbeat > ri.heartbeat {
                    ri.version = fi.version;
                    ri.heartbeat = fi.heartbeat;
                    ri.payload = fi.payload.clone();
                    ri.updated = Some(true);
                    taken = true;
                }
            } else if fi.version == ri.version {
                if fi.heartbeat > ri.heartbeat {
                    ri.heartbeat = fi.heartbeat;
                }
            }
        },
        None => {
            if from_owner {
                let mut new_peer = fi.clone();
                new_peer.updated = Some(true);
                peers.push(new_peer);
                taken = true;
            } else if is_alive(fi.heartbeat, alive_duration, now) {
                let mut new_peer = fi.clone();
                new_peer.version = 0;
                new_peer.payload = None;
                new_peer.updated = Some(true);
                peers.push(new_peer);
            }
        },
    }
    assert(peer_views(peers@) =~= absorbed(
        peer_views(old(peers)@),
        fi@,
        sender@,
        alive_duration as nat,
        now as nat,
    ));
    if taken {
        match &fi.payload {
            Some(message) => Some(Notice { from: fi.id.clone(), message: message.clone() }),
            None => None,
        }
    } else {
        None
    }
}

/// Takes every mark off the entries of `peers`.
fn clear_marks(peers: &mut Vec<PeerState>)
    ensures
        peer_views(final(peers)@) == unmarked_all(peer_views(old(peers)@)),
{
    let mut i: usize = 0;
    while i < peers.len()
        invariant
            i <= peers.len(),
            peers.len() == old(peers).len(),
            forall|j: int| 0 <= j < i ==> peers[j]@ == unmarked(old(peers)[j]@),
            forall|j: int| i <= j < peers.len() ==> peers[j]@ == old(peers)[j]@,
        decreases peers.len() - i,
    {
        peers[i].updated = None;
        i += 1;
    }
    assert(peer_views(peers@) =~= unmarked_all(peer_views(old(peers)@)));
}

/// Ends a merge: stamps the node's own entry with `now`, drops the entries
/// that are neither marked nor alive, and takes the marks off the rest.
fn prune(state: &mut NetworkState, alive_duration: u64, now: u64)
    ensures
        final(state)@.sender == old(state)@.sender,
        final(state)@.peers == pruned(
            old(state)@.peers,
            old(state)@.sender,
            alive_duration as nat,
            now as nat,
        ),
{
    let mut all: Vec<PeerState> = Vec::new();
    core::mem::swap(&mut state.peers, &mut all);
    let ghost before = peer_views(all@);
    let ghost me = state.sender@;
    for item in it: all
        invariant
            state.sender@ == me,
            peer_views(it.seq()) == before,
            peer_views(state.peers@) == pruned(
                before.take(it.index() as int),
                me,
                alive_duration as nat,
                now as nat,
            ),
    {
        let mut item = item;
        let ghost seen = it.index() as int;
        proof {
            assert(before.take(seen + 1).drop_last() =~= before.take(seen));
            assert(before.take(seen + 1).last() == item@);
        }
        let own = item.id == state.sender;
        let marked = match item.updated {
            Some(flag) => flag,
            None => false,
        };
        if own || marked || is_alive(item.heartbeat, alive_duration, now) {
            if own {
                item.heartbeat = now;
            }
            item.updated = None;
            let ghost kept = peer_views(state.peers@);
            state.peers.push(item);
            assert(peer_views(state.peers@) =~= kept.push(item@));
        }
    }
    assert(before.take(before.len() as int) =~= before);
}

/// Merges the view `foreign_state`, received from another node, into the
/// view `recipient_state` held here, at time `now`.
///
/// Every report of the message is read in turn. A report about a known peer
/// may raise its version and heartbeat; a report about an unknown peer may
/// add an entry. Then the node's own entry is stamped with `now`, and every
/// entry that this merge did not mark and whose heartbeat is older than
/// `alive_duration` is dropped. The payloads taken over are returned in the
/// order in which they were met.
pub fn sync_state(
    foreign_state: &NetworkState,
    recipient_state: &mut NetworkState,
    alive_duration: u64,
    now: u64,
) -> (notices: Vec<Notice>)
    ensures
        final(recipient_state)@ == merged(
            old(recipient_state)@,
            foreign_state@,
            alive_duration as nat,
            now as nat,
        ),
        notice_views(notices@) == merge_notices(
            old(recipient_state)@,
            foreign_state@,
            alive_duration as nat,
            now as nat,
        ),
        distinct_ids(old(recipient_state)@.peers) ==> distinct_ids(final(recipient_state)@.peers),
        old(recipient_state)@.well_formed() ==> final(recipient_state)@.well_formed(),
        forall|j: int|
            0 <= j < final(recipient_state)@.peers.len() ==> {
                let entry = #[trigger] final(recipient_state)@.peers[j];
                &&& entry.updated is None
                &&& entry.id == final(recipient_state)@.sender ==> entry.heartbeat == now
            },
{
    proof {
        let local = old(recipient_state)@;
        if distinct_ids(local.peers) {
            lemma_merge_stays_distinct(local, foreign_state@, alive_duration as nat, now as nat);
        }
        if local.well_formed() {
            lemma_merge_well_formed(local, foreign_state@, alive_duration as nat, now as nat);
        }
        lemma_merge_settles(local, foreign_state@, alive_duration as nat, now as nat);
    }
    let ghost start = unmarked_all(old(recipient_state)@.peers);
    let ghost incoming = foreign_state@.peers;
    let ghost sender = foreign_state@.sender;
    let mut notices: Vec<Notice> = Vec::new();
    clear_marks(&mut recipient_state.peers);
    let mut k: usize = 0;
    while k < foreign_state.peers.len()
        invariant
            k <= foreign_state.peers.len(),
            incoming == foreign_state@.peers,
            sender == foreign_state@.sender,
            recipient_state.sender@ == old(recipient_state).sender@,
            peer_views(recipient_state.peers@) == absorbed_all(
                start,
                incoming.take(k as int),
                sender,
                alive_duration as nat,
                now as nat,
            ),
            notice_views(notices@) == announced_all(
                start,
                incoming.take(k as int),
                sender,
                alive_duration as nat,
                now as nat,
            ),
        decreases foreign_state.peers.len() - k,
    {
        proof {
            assert(incoming.take(k + 1).drop_last() =~= incoming.take(k as int));
            assert(incoming.take(k + 1).last() == foreign_state.peers[k as int]@);
        }
        let ghost told = notice_views(notices@);
        match absorb(
            &mut recipient_state.peers,
            &foreign_state.peers[k],
            &foreign_state.sender,
            alive_duration,
            now,
        ) {
            Some(notice) => {
                notices.push(notice);
                assert(notice_views(notices@) =~= told.push(notice@));
            },
            None => {},
        }
        k += 1;
    }
    assert(incoming.take(incoming.len() as int) =~= incoming);
    prune(recipient_state, alive_duration, now);
    notices
}

} // verus!
