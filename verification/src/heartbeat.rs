//! The periodic exchange: what a node sends on each beat, whom it sends to,
//! and what it makes of the answers.

use vstd::arithmetic::div_mod::{
    lemma_fundamental_div_mod, lemma_mod_multiples_vanish, lemma_small_mod,
};
use vstd::prelude::*;

use crate::common::{
    distinct_ids, find_peer, first_with_id, knows, lemma_distinct_ids_step, lemma_first_with_id,
    lemma_known_has_first, optional_text, optional_view, peer_views, texts, NetworkState,
    NetworkView, PeerState, PeerView,
};
use crate::sync::{merge_notices, merged, notice_views, sync_state, Notice, NoticeView};
use crate::sync_laws::lemma_merge_well_formed;

verus! {

/// What one peer answered in a round, as plain mathematical values.
pub struct ReplyView {
    pub peer: Seq<char>,
    pub state: Option<NetworkView>,
}

/// What one peer answered in a round: its view, or nothing.
struct Reply {
    peer: String,
    state: Option<NetworkState>,
}

impl View for Reply {
    type V = ReplyView;

    closed spec fn view(&self) -> ReplyView {
        ReplyView {
            peer: self.peer@,
            state: optional_view(self.state),
        }
    }
}

/// No two of `replies` are from the same peer.
pub open spec fn distinct_peers(replies: Seq<ReplyView>) -> bool {
    forall|i: int, j: int|
        0 <= i < j < replies.len() ==> (#[trigger] replies[i]).peer != (#[trigger] replies[j]).peer
}

/// `replies` with the answer `state` of `peer` put in: in the place of the
/// answer that `peer` gave before, or at the end.
pub open spec fn with_reply(
    replies: Seq<ReplyView>,
    peer: Seq<char>,
    state: Option<NetworkView>,
) -> Seq<ReplyView> {
    if exists|i: int| 0 <= i < replies.len() && (#[trigger] replies[i]).peer == peer {
        let i = choose|i: int| 0 <= i < replies.len() && (#[trigger] replies[i]).peer == peer;
        replies.update(i, ReplyView { peer, state })
    } else {
        replies.push(ReplyView { peer, state })
    }
}

/// The view `local` after every answer of `replies` that holds a view was
/// merged into it, in the order of `replies`.
pub open spec fn merged_replies(
    local: NetworkView,
    replies: Seq<ReplyView>,
    alive_duration: nat,
    now: nat,
) -> NetworkView
    decreases replies.len(),
{
    if replies.len() == 0 {
        local
    } else {
        let before = merged_replies(local, replies.drop_last(), alive_duration, now);
        match replies.last().state {
            Some(foreign) => merged(before, foreign, alive_duration, now),
            None => before,
        }
    }
}

/// The notices of merging the answers of `replies`, in their order.
pub open spec fn reply_notices(
    local: NetworkView,
    replies: Seq<ReplyView>,
    alive_duration: nat,
    now: nat,
) -> Seq<NoticeView>
    decreases replies.len(),
{
    if replies.len() == 0 {
        Seq::empty()
    } else {
        let before = merged_replies(local, replies.drop_last(), alive_duration, now);
        let told = reply_notices(local, replies.drop_last(), alive_duration, now);
        match replies.last().state {
            Some(foreign) => told + merge_notices(before, foreign, alive_duration, now),
            None => told,
        }
    }
}

/// The peer `id` was addressed and gave no answer.
pub open spec fn silent(replies: Seq<ReplyView>, id: Seq<char>) -> bool {
    exists|k: int|
        0 <= k < replies.len() && (#[trigger] replies[k]).peer == id && replies[k].state is None
}

/// The entries of `peers` about peers that are not silent, in their order.
pub open spec fn responsive(peers: Seq<PeerView>, replies: Seq<ReplyView>) -> Seq<PeerView>
    decreases peers.len(),
{
    if peers.len() == 0 {
        Seq::empty()
    } else if silent(replies, peers.last().id) {
        responsive(peers.drop_last(), replies)
    } else {
        responsive(peers.drop_last(), replies).push(peers.last())
    }
}

/// The view `local` when a round with the answers `replies` is over: the
/// answers are merged, then every silent peer is struck out, however
/// recent its heartbeat.
pub open spec fn round_closed(
    local: NetworkView,
    replies: Seq<ReplyView>,
    alive_duration: nat,
    now: nat,
) -> NetworkView {
    NetworkView {
        sender: local.sender,
        peers: responsive(merged_replies(local, replies, alive_duration, now).peers, replies),
    }
}

/// No entry of the responsive part of a list is about a silent peer.
pub proof fn lemma_responsive_sound(peers: Seq<PeerView>, replies: Seq<ReplyView>)
    ensures
        responsive(peers, replies).len() <= peers.len(),
        forall|j: int|
            0 <= j < responsive(peers, replies).len() ==> {
                let entry = #[trigger] responsive(peers, replies)[j];
                &&& !silent(replies, entry.id)
                &&& peers.contains(entry)
            },
    decreases peers.len(),
{
    if peers.len() > 0 {
        let rest = peers.drop_last();
        lemma_responsive_sound(rest, replies);
        let out = responsive(peers, replies);
        assert forall|j: int| 0 <= j < out.len() implies {
            let entry = #[trigger] out[j];
            &&& !silent(replies, entry.id)
            &&& peers.contains(entry)
        } by {
            if j < responsive(rest, replies).len() {
                let entry = responsive(rest, replies)[j];
                assert(rest.contains(entry));
                let w = choose|w: int| 0 <= w < rest.len() && rest[w] == entry;
                assert(peers[w] == entry);
            } else {
                assert(peers[peers.len() - 1] == out[j]);
            }
        }
    }
}

/// Every entry about a peer that is not silent is in the responsive part
/// of a list, and distinct entries stay distinct.
pub proof fn lemma_responsive_complete(peers: Seq<PeerView>, replies: Seq<ReplyView>)
    ensures
        forall|i: int|
            0 <= i < peers.len() && !silent(replies, (#[trigger] peers[i]).id) ==> responsive(
                peers,
                replies,
            ).contains(peers[i]),
        distinct_ids(peers) ==> distinct_ids(responsive(peers, replies)),
    decreases peers.len(),
{
    if peers.len() > 0 {
        let rest = peers.drop_last();
        let head = responsive(rest, replies);
        let out = responsive(peers, replies);
        lemma_responsive_complete(rest, replies);
        lemma_responsive_sound(rest, replies);
        assert forall|i: int|
            0 <= i < peers.len() && !silent(replies, (#[trigger] peers[i]).id) implies out.contains(
            peers[i],
        ) by {
            if i < rest.len() {
                assert(rest[i] == peers[i]);
                assert(head.contains(rest[i]));
                let j = choose|j: int| 0 <= j < head.len() && head[j] == rest[i];
                assert(out[j] == peers[i]);
            } else {
                assert(out[out.len() - 1] == peers[i]);
            }
        }
        if distinct_ids(peers) {
            lemma_distinct_ids_step(peers);
            assert forall|a: int, b: int| 0 <= a < b < out.len() implies (#[trigger] out[a]).id != (
            #[trigger] out[b]).id by {
                if b < head.len() {
                    assert(head[a].id != head[b].id);
                } else {
                    assert(rest.contains(head[a]));
                    let w = choose|w: int| 0 <= w < rest.len() && rest[w] == head[a];
                    assert(rest[w].id != peers.last().id);
                }
            }
        }
    }
}

/// Merging the answers of a round keeps a view one that a node may hold.
pub proof fn lemma_merged_replies_well_formed(
    local: NetworkView,
    replies: Seq<ReplyView>,
    alive_duration: nat,
    now: nat,
)
    requires
        local.well_formed(),
    ensures
        merged_replies(local, replies, alive_duration, now).well_formed(),
        merged_replies(local, replies, alive_duration, now).sender == local.sender,
    decreases replies.len(),
{
    if replies.len() > 0 {
        lemma_merged_replies_well_formed(local, replies.drop_last(), alive_duration, now);
        let before = merged_replies(local, replies.drop_last(), alive_duration, now);
        match replies.last().state {
            Some(foreign) => {
                lemma_merge_well_formed(before, foreign, alive_duration, now);
            },
            None => {},
        }
    }
}

/// A round keeps a view one that a node may hold: the entries stay
/// distinct, and the node's own entry stays unless the node is itself
/// among the silent peers.
pub proof fn lemma_round_well_formed(
    local: NetworkView,
    replies: Seq<ReplyView>,
    alive_duration: nat,
    now: nat,
)
    requires
        local.well_formed(),
        !silent(replies, local.sender),
    ensures
        round_closed(local, replies, alive_duration, now).well_formed(),
{
    let reached = merged_replies(local, replies, alive_duration, now);
    let out = round_closed(local, replies, alive_duration, now).peers;
    lemma_merged_replies_well_formed(local, replies, alive_duration, now);
    lemma_responsive_complete(reached.peers, replies);
    let w = choose|w: int|
        0 <= w < reached.peers.len() && (#[trigger] reached.peers[w]).id == local.sender;
    assert(out.contains(reached.peers[w]));
    let j = choose|j: int| 0 <= j < out.len() && out[j] == reached.peers[w];
    assert(out[j].id == local.sender);
}

/// The answers of one round, one for each peer that was addressed, in the
/// order in which the peers were first put in.
pub struct ReceivedStates {
    replies: Vec<Reply>,
}

impl View for ReceivedStates {
    type V = Seq<ReplyView>;

    closed spec fn view(&self) -> Seq<ReplyView> {
        self.replies@.map_values(|r: Reply| r@)
    }
}

impl ReceivedStates {
    #[verifier::type_invariant]
    spec fn one_reply_each(self) -> bool {
        distinct_peers(self@)
    }

    /// A round in which nobody has been addressed yet.
    pub fn new() -> (fresh: Self)
        ensures
            fresh@ == Seq::<ReplyView>::empty(),
            distinct_peers(fresh@),
    {
        let fresh = ReceivedStates { replies: Vec::new() };
        assert(fresh@ =~= Seq::<ReplyView>::empty());
        fresh
    }

    /// The number of peers that were addressed; each has one answer.
    pub fn len(&self) -> (count: usize)
        ensures
            count == self@.len(),
            distinct_peers(self@),
    {
        proof {
            use_type_invariant(self);
        }
        self.replies.len()
    }

    /// Records what `peer` answered; an earlier answer of the same peer is
    /// replaced.
    pub fn insert(&mut self, peer: String, state: Option<NetworkState>)
        ensures
            final(self)@ == with_reply(old(self)@, peer@, optional_view(state)),
            distinct_peers(old(self)@),
            distinct_peers(final(self)@),
    {
        proof {
            use_type_invariant(&*self);
        }
        let ghost before = self@;
        let ghost answer = optional_view(state);
        let mut replies: Vec<Reply> = Vec::new();
        core::mem::swap(&mut replies, &mut self.replies);
        let mut i: usize = 0;
        let mut found: Option<usize> = None;
        while i < replies.len()
            invariant_except_break
                i <= replies.len(),
                found is None,
                forall|j: int| 0 <= j < i ==> (#[trigger] before[j]).peer != peer@,
            invariant
                replies@.map_values(|r: Reply| r@) == before,
            ensures
                replies@.map_values(|r: Reply| r@) == before,
                match found {
                    Some(at) => at < replies.len() && before[at as int].peer == peer@,
                    None => forall|j: int|
                        0 <= j < before.len() ==> (#[trigger] before[j]).peer != peer@,
                },
            decreases replies.len() - i,
        {
            if replies[i].peer == peer {
                assert(before[i as int].peer == peer@);
                found = Some(i);
                break ;
            }
            i += 1;
        }
        match found {
            Some(at) => {
                let ghost chosen = choose|c: int|
                    0 <= c < before.len() && (#[trigger] before[c]).peer == peer@;
                assert(chosen == at) by {
                    if chosen < at {
                        assert(before[chosen].peer != before[at as int].peer);
                    } else if at < chosen {
                        assert(before[at as int].peer != before[chosen].peer);
                    }
                }
                replies[at].state = state;
            },
            None => {
                replies.push(Reply { peer, state });
            },
        }
        let ghost after = replies@.map_values(|r: Reply| r@);
        assert(after =~= with_reply(before, peer@, answer));
        assert(distinct_peers(after)) by {
            assert forall|a: int, b: int| 0 <= a < b < after.len() implies (
            #[trigger] after[a]).peer != (#[trigger] after[b]).peer by {
                if b < before.len() {
                    assert(before[a].peer != before[b].peer);
                } else {
                    assert(before[a].peer != peer@);
                }
            }
        }
        self.replies = replies;
    }
}

/// Whether `id` is among the peers of `replies` that gave no answer.
fn is_silent(replies: &Vec<Reply>, id: &String) -> (none: bool)
    ensures
        none == silent(replies@.map_values(|r: Reply| r@), id@),
{
    let ghost views = replies@.map_values(|r: Reply| r@);
    let mut k: usize = 0;
    while k < replies.len()
        invariant
            k <= replies.len(),
            views == replies@.map_values(|r: Reply| r@),
            forall|j: int|
                0 <= j < k ==> !((#[trigger] views[j]).peer == id@ && views[j].state is None),
        decreases replies.len() - k,
    {
        let unanswered = match &replies[k].state {
            Some(_) => false,
            None => true,
        };
        if unanswered && replies[k].peer == *id {
            assert(views[k as int].peer == id@ && views[k as int].state is None);
            return true;
        }
        k += 1;
    }
    false
}

/// Strikes out of `peers` every entry about a silent peer.
fn drop_silent(peers: &mut Vec<PeerState>, replies: &Vec<Reply>)
    ensures
        peer_views(final(peers)@) == responsive(
            peer_views(old(peers)@),
            replies@.map_values(|r: Reply| r@),
        ),
{
    let ghost answers = replies@.map_values(|r: Reply| r@);
    let mut all: Vec<PeerState> = Vec::new();
    core::mem::swap(peers, &mut all);
    let ghost before = peer_views(all@);
    for item in it: all
        invariant
            answers == replies@.map_values(|r: Reply| r@),
            peer_views(it.seq()) == before,
            peer_views(peers@) == responsive(before.take(it.index() as int), answers),
    {
        let ghost seen = it.index() as int;
        proof {
            assert(before.take(seen + 1).drop_last() =~= before.take(seen));
            assert(before.take(seen + 1).last() == item@);
        }
        if !is_silent(replies, &item.id) {
            let ghost kept = peer_views(peers@);
            peers.push(item);
            assert(peer_views(peers@) =~= kept.push(item@));
        }
    }
    assert(before.take(before.len() as int) =~= before);
}

/// Closes a round: merges every answer that came back into
/// `recipient_state`, in the order in which the peers were addressed, then
/// strikes out every peer that gave no answer. The payloads taken over are
/// returned in the order in which they were met.
pub fn sync_received_states(
    foreign_states: &ReceivedStates,
    recipient_state: &mut NetworkState,
    alive_duration: u64,
    now: u64,
) -> (notices: Vec<Notice>)
    ensures
        final(recipient_state)@ == round_closed(
            old(recipient_state)@,
            foreign_states@,
            alive_duration as nat,
            now as nat,
        ),
        notice_views(notices@) == reply_notices(
            old(recipient_state)@,
            foreign_states@,
            alive_duration as nat,
            now as nat,
        ),
        forall|k: int|
            0 <= k < foreign_states@.len() && (#[trigger] foreign_states@[k]).state is None
                ==> !knows(final(recipient_state)@.peers, foreign_states@[k].peer),
        old(recipient_state)@.well_formed() && !silent(
            foreign_states@,
            old(recipient_state)@.sender,
        ) ==> final(recipient_state)@.well_formed(),
{
    proof {
        let local = old(recipient_state)@;
        if local.well_formed() && !silent(foreign_states@, local.sender) {
            lemma_round_well_formed(local, foreign_states@, alive_duration as nat, now as nat);
        }
    }
    let ghost start = old(recipient_state)@;
    let ghost answers = foreign_states@;
    let mut notices: Vec<Notice> = Vec::new();
    let mut k: usize = 0;
    while k < foreign_states.replies.len()
        invariant
            k <= foreign_states.replies.len(),
            answers == foreign_states@,
            recipient_state@.sender == start.sender,
            recipient_state@ == merged_replies(
                start,
                answers.take(k as int),
                alive_duration as nat,
                now as nat,
            ),
            notice_views(notices@) == reply_notices(
                start,
                answers.take(k as int),
                alive_duration as nat,
                now as nat,
            ),
        decreases foreign_states.replies.len() - k,
    {
        proof {
            assert(answers.take(k + 1).drop_last() =~= answers.take(k as int));
            assert(answers.take(k + 1).last() == foreign_states.replies[k as int]@);
        }
        match &foreign_states.replies[k].state {
            Some(peer_state) => {
                let ghost told = notice_views(notices@);
                let mut more = sync_state(peer_state, recipient_state, alive_duration, now);
                let ghost added = notice_views(more@);
                notices.append(&mut more);
                assert(notice_views(notices@) =~= told + added);
            },
            None => {},
        }
        k += 1;
    }
    assert(answers.take(answers.len() as int) =~= answers);
    let ghost reached = recipient_state@;
    drop_silent(&mut recipient_state.peers, &foreign_states.replies);
    proof {
        lemma_responsive_sound(reached.peers, answers);
        assert forall|k: int|
            0 <= k < answers.len() && (#[trigger] answers[k]).state is None implies !knows(
            recipient_state@.peers,
            answers[k].peer,
        ) by {
            if knows(recipient_state@.peers, answers[k].peer) {
                let left = recipient_state@.peers;
                let j = choose|j: int|
                    0 <= j < left.len() && (#[trigger] left[j]).id == answers[k].peer;
                assert(!silent(answers, left[j].id));
            }
        }
    }
    notices
}

/// The peers of `peers` other than `me`, in their order: those a round is
/// sent to.
pub open spec fn others(peers: Seq<PeerView>, me: Seq<char>) -> Seq<Seq<char>>
    decreases peers.len(),
{
    if peers.len() == 0 {
        Seq::empty()
    } else if peers.last().id == me {
        others(peers.drop_last(), me)
    } else {
        others(peers.drop_last(), me).push(peers.last().id)
    }
}

/// The addresses a round of `state` is sent to: every peer but the node
/// itself, in the order of the entries.
pub fn destinations(state: &NetworkState) -> (targets: Vec<String>)
    ensures
        texts(targets@) == others(state@.peers, state@.sender),
{
    let ghost all = state@.peers;
    let mut targets: Vec<String> = Vec::new();
    let mut i: usize = 0;
    while i < state.peers.len()
        invariant
            i <= state.peers.len(),
            all == state@.peers,
            texts(targets@) == others(all.take(i as int), state@.sender),
        decreases state.peers.len() - i,
    {
        proof {
            assert(all.take(i + 1).drop_last() =~= all.take(i as int));
            assert(all.take(i + 1).last() == state.peers[i as int]@);
        }
        if state.peers[i].id != state.sender {
            let ghost listed = texts(targets@);
            targets.push(state.peers[i].id.clone());
            assert(texts(targets@) =~= listed.push(state.peers[i as int].id@));
        }
        i += 1;
    }
    assert(all.take(all.len() as int) =~= all);
    targets
}

/// The version of the node's own entry, if the node has one.
pub fn own_version(state: &NetworkState) -> (version: Option<u64>)
    ensures
        match version {
            Some(v) => knows(state@.peers, state@.sender) && v == state@.peers[first_with_id(
                state@.peers,
                state@.sender,
            )].version,
            None => !knows(state@.peers, state@.sender),
        },
{
    match find_peer(&state.peers, &state.sender) {
        Some(i) => {
            proof {
                lemma_first_with_id(state@.peers, state@.sender, i as int);
            }
            Some(state.peers[i].version)
        },
        None => None,
    }
}

/// The node's own entry as a round sends it: stamped with `now`, and with
/// the next version and the new payload where the round carries one.
pub open spec fn beaten(p: PeerView, payload: Option<Seq<char>>, now: nat) -> PeerView {
    match payload {
        Some(text) => PeerView {
            version: p.version + 1,
            heartbeat: now,
            payload: Some(text),
            ..p
        },
        None => PeerView { heartbeat: now, ..p },
    }
}

/// The view `local` as a round sends it. Where no other peer is known the
/// round does not take place, and `local` stays as it is.
pub open spec fn round_opened(
    local: NetworkView,
    payload: Option<Seq<char>>,
    now: nat,
) -> NetworkView {
    if others(local.peers, local.sender).len() > 0 && knows(local.peers, local.sender) {
        let own = first_with_id(local.peers, local.sender);
        NetworkView {
            peers: local.peers.update(own, beaten(local.peers[own], payload, now)),
            ..local
        }
    } else {
        local
    }
}

/// Opening a round keeps a view one that a node may hold.
pub proof fn lemma_round_opened_well_formed(
    local: NetworkView,
    payload: Option<Seq<char>>,
    now: nat,
)
    ensures
        local.well_formed() ==> round_opened(local, payload, now).well_formed(),
{
    if local.well_formed() {
        let out = round_opened(local, payload, now).peers;
        lemma_known_has_first(local.peers, local.sender);
        let own = first_with_id(local.peers, local.sender);
        assert(out.len() == local.peers.len());
        assert forall|i: int| 0 <= i < out.len() implies (#[trigger] out[i]).id
            == local.peers[i].id by {}
        assert(out[own].id == local.sender);
        assert forall|a: int, b: int| 0 <= a < b < out.len() implies (#[trigger] out[a]).id != (
        #[trigger] out[b]).id by {
            assert(local.peers[a].id != local.peers[b].id);
        }
    }
}

/// Where a view is one that a node may hold, there is a peer to send a
/// round to exactly when the view holds more than the node's own entry.
pub proof fn lemma_others_of_well_formed(local: NetworkView)
    requires
        local.well_formed(),
    ensures
        others(local.peers, local.sender).len() == local.peers.len() - 1,
{
    let own = choose|own: int|
        0 <= own < local.peers.len() && (#[trigger] local.peers[own]).id == local.sender;
    lemma_others_count(local.peers, local.sender, own);
}

/// Among distinct entries of which the one at `own` is the node's, all
/// the others are peers to send to.
proof fn lemma_others_count(peers: Seq<PeerView>, me: Seq<char>, own: int)
    requires
        distinct_ids(peers),
    ensures
        0 <= own < peers.len() && peers[own].id == me ==> others(peers, me).len() == peers.len()
            - 1,
        (forall|i: int| 0 <= i < peers.len() ==> (#[trigger] peers[i]).id != me) ==> others(
            peers,
            me,
        ).len() == peers.len(),
    decreases peers.len(),
{
    if peers.len() > 0 {
        lemma_distinct_ids_step(peers);
        let rest = peers.drop_last();
        lemma_others_count(rest, me, own);
        assert forall|i: int| 0 <= i < rest.len() implies (#[trigger] rest[i]).id
            == peers[i].id by {}
        if 0 <= own < peers.len() && peers[own].id == me {
            if own == peers.len() - 1 {
                assert forall|i: int| 0 <= i < rest.len() implies (#[trigger] rest[i]).id != me by {
                    assert(peers[i].id != peers[own].id);
                }
            } else {
                assert(rest[own].id == me);
                assert(peers[own].id != peers[peers.len() - 1].id);
            }
        }
        if forall|i: int| 0 <= i < peers.len() ==> (#[trigger] peers[i]).id != me {
            assert(peers[peers.len() - 1].id != me);
            assert forall|i: int| 0 <= i < rest.len() implies (#[trigger] rest[i]).id != me by {
                assert(peers[i].id != me);
            }
        }
    }
}

/// Opens a round at time `now`: stamps the node's own entry, attaches
/// `payload` to it under the next version where there is one, and returns
/// the peers to send the state to. Where the result is empty no other peer
/// is known, nothing is to be sent, and `state` is unchanged.
pub fn open_round(state: &mut NetworkState, payload: Option<String>, now: u64) -> (targets: Vec<
    String,
>)
    requires
        payload is Some && others(old(state)@.peers, old(state)@.sender).len() > 0 && knows(
            old(state)@.peers,
            old(state)@.sender,
        ) ==> old(state)@.peers[first_with_id(old(state)@.peers, old(state)@.sender)].version
            < u64::MAX,
    ensures
        texts(targets@) == others(old(state)@.peers, old(state)@.sender),
        final(state)@ == round_opened(old(state)@, optional_text(payload), now as nat),
        old(state)@.well_formed() ==> final(state)@.well_formed(),
{
    proof {
        lemma_round_opened_well_formed(old(state)@, optional_text(payload), now as nat);
    }
    let targets = destinations(state);
    if targets.len() == 0 {
        return targets;
    }
    match find_peer(&state.peers, &state.sender) {
        Some(i) => {
            proof {
                lemma_first_with_id(state@.peers, state@.sender, i as int);
            }
            let own = &mut state.peers[i];
            own.heartbeat = now;
            match payload {
                Some(text) => {
                    own.version = own.version + 1;
                    own.payload = Some(text);
                },
                None => {},
            }
            assert(state@.peers =~= round_opened(
                old(state)@,
                optional_text(payload),
                now as nat,
            ).peers);
        },
        None => {},
    }
    targets
}

/// Length of one beat, the tick of the exchange, in milliseconds.
pub const BEAT_DURATION_MSEC: u64 = 100;

/// Time between two bare heartbeats, in milliseconds.
pub const HEART_BEAT_DURATION_MSEC: u64 = 1000;

/// What a node does on one beat.
#[derive(Clone, Copy, Debug, PartialEq, Eq, Structural)]
pub enum Beat {
    /// Send the state with a new payload under the next version.
    Payload,
    /// Send the state as it is, as a sign of life.
    Heartbeat,
    /// Send nothing.
    Rest,
}

/// What is done on beat number `tick`, counted from 0, by a node that sends
/// a payload every `period` seconds. A payload goes out only once another
/// peer has been seen, and takes the place of the heartbeat due on the same
/// beat.
pub open spec fn beat_at(tick: nat, period: nat, connected: bool) -> Beat {
    let elapsed = tick as int * BEAT_DURATION_MSEC as int;
    if connected && elapsed % (period as int * 1000) == 0 {
        Beat::Payload
    } else if elapsed % (HEART_BEAT_DURATION_MSEC as int) == 0 {
        Beat::Heartbeat
    } else {
        Beat::Rest
    }
}

/// The number of beats after which the rhythm of a node repeats.
pub open spec fn cycle(period: nat) -> nat {
    period * 10
}

/// The place within its cycle of beat number `count`, counted from 0.
pub open spec fn phase_of(count: nat, period: nat) -> nat {
    count % cycle(period)
}

/// The rhythm repeats with every cycle: what is done on a beat depends on
/// its number within the cycle only.
pub proof fn lemma_beat_repeats(tick: nat, period: nat, connected: bool)
    requires
        period >= 1,
    ensures
        beat_at(phase_of(tick, period), period, connected) == beat_at(tick, period, connected),
{
    let c = cycle(period) as int;
    let q = tick as int / c;
    let r = tick as int % c;
    lemma_fundamental_div_mod(tick as int, c);
    assert(tick == c * q + r);
    assert(0 <= r < c);
    let long = (period * 1000) as int;
    assert(tick * 100 == long * q + r * 100) by (nonlinear_arith)
        requires
            tick == c * q + r,
            c == period * 10,
            long == period * 1000,
    ;
    lemma_mod_multiples_vanish(q, r * 100, long);
    assert(tick * 100 == 1000 * (period * q) + r * 100) by (nonlinear_arith)
        requires
            tick == c * q + r,
            c == period * 10,
    ;
    lemma_mod_multiples_vanish(period * q, r * 100, 1000);
}

/// Within its first cycle a payload is due on beat 0 only, and a heartbeat
/// on every tenth beat.
pub proof fn lemma_beat_in_cycle(phase: nat, period: nat, connected: bool)
    requires
        period >= 1,
        phase < cycle(period),
    ensures
        beat_at(phase, period, connected) == if connected && phase == 0 {
            Beat::Payload
        } else if phase % 10 == 0 {
            Beat::Heartbeat
        } else {
            Beat::Rest
        },
{
    lemma_small_mod(phase * 100, period * 1000);
}

/// From one beat to the next the place within the cycle moves on by one,
/// and from the last place back to the first.
pub proof fn lemma_phase_step(count: nat, period: nat)
    requires
        period >= 1,
    ensures
        phase_of(count, period) < cycle(period),
        phase_of(count + 1, period) == if phase_of(count, period) + 1 == cycle(period) {
            0
        } else {
            phase_of(count, period) + 1
        },
{
    let c = cycle(period) as int;
    let q = count as int / c;
    let r = count as int % c;
    lemma_fundamental_div_mod(count as int, c);
    assert(count + 1 == c * q + (r + 1));
    lemma_mod_multiples_vanish(q, r + 1, c);
    if r + 1 == c {
        lemma_mod_multiples_vanish(1, 0, c);
    } else {
        lemma_small_mod((r + 1) as nat, c as nat);
    }
}

/// Where a pacemaker stands, as plain mathematical values.
pub struct PacemakerView {
    /// Seconds between two payloads.
    pub period: nat,
    /// Number of the coming beat within the cycle.
    pub phase: nat,
    /// Another peer has been seen.
    pub connected: bool,
}

/// Keeps the rhythm of a node: counts the beats and says on each what is
/// to be sent.
#[derive(Debug)]
pub struct Pacemaker {
    period: u8,
    phase: u64,
    connected: bool,
}

impl View for Pacemaker {
    type V = PacemakerView;

    closed spec fn view(&self) -> PacemakerView {
        PacemakerView {
            period: self.period as nat,
            phase: self.phase as nat,
            connected: self.connected,
        }
    }
}

impl Pacemaker {
    #[verifier::type_invariant]
    spec fn in_cycle(self) -> bool {
        self.period >= 1 && self.phase < self.period * 10
    }

    /// A pacemaker before its first beat, for a node that sends a payload
    /// every `period` seconds and has not seen another peer yet.
    pub fn new(period: u8) -> (fresh: Self)
        requires
            period >= 1,
        ensures
            fresh@ == (PacemakerView { period: period as nat, phase: 0, connected: false }),
    {
        Pacemaker { period, phase: 0, connected: false }
    }

    /// Whether another peer has been seen.
    pub fn is_connected(&self) -> (connected: bool)
        ensures
            connected == self@.connected,
    {
        self.connected
    }

    /// What is to be done on the coming beat.
    pub fn beat(&self) -> (due: Beat)
        ensures
            self@.period >= 1,
            self@.phase < cycle(self@.period),
            due == beat_at(self@.phase, self@.period, self@.connected),
    {
        proof {
            use_type_invariant(self);
            lemma_beat_in_cycle(self@.phase, self@.period, self@.connected);
        }
        if self.connected && self.phase == 0 {
            Beat::Payload
        } else if self.phase % 10 == 0 {
            Beat::Heartbeat
        } else {
            Beat::Rest
        }
    }

    /// Looks at the state after a beat. The first time that it holds a peer
    /// other than the node itself the pacemaker becomes connected, once and
    /// for all, and the peers seen are returned.
    pub fn observe(&mut self, state: &NetworkState) -> (seen: Option<Vec<String>>)
        ensures
            final(self)@.period == old(self)@.period,
            final(self)@.phase == old(self)@.phase,
            match seen {
                Some(targets) => {
                    &&& !old(self)@.connected
                    &&& final(self)@.connected
                    &&& targets.len() > 0
                    &&& texts(targets@) == others(state@.peers, state@.sender)
                },
                None => {
                    &&& final(self)@.connected == old(self)@.connected
                    &&& old(self)@.connected || others(state@.peers, state@.sender).len() == 0
                },
            },
    {
        proof {
            use_type_invariant(&*self);
        }
        if self.connected {
            return None;
        }
        let targets = destinations(state);
        if targets.len() == 0 {
            return None;
        }
        self.connected = true;
        Some(targets)
    }

    /// Moves on to the next beat.
    pub fn tick(&mut self)
        ensures
            final(self)@.period == old(self)@.period,
            final(self)@.connected == old(self)@.connected,
            final(self)@.phase == phase_of(old(self)@.phase + 1, old(self)@.period),
            forall|count: nat|
                old(self)@.phase == #[trigger] phase_of(count, old(self)@.period)
                    ==> final(self)@.phase == phase_of(count + 1, old(self)@.period),
    {
        proof {
            use_type_invariant(&*self);
        }
        let ghost period = self@.period;
        let ghost before = self@.phase;
        let last = self.period as u64 * 10 - 1;
        if self.phase == last {
            self.phase = 0;
        } else {
            self.phase = self.phase + 1;
        }
        proof {
            lemma_small_mod(before, cycle(period));
            assert(before == phase_of(before, period));
            lemma_phase_step(before, period);
            assert forall|count: nat|
                before == #[trigger] phase_of(count, period) implies self@.phase == phase_of(
                count + 1,
                period,
            ) by {
                lemma_phase_step(count, period);
            }
        }
    }
}

/// What happened while the state was exchanged with one peer.
#[derive(Debug, PartialEq, Eq)]
pub enum ExchangeEvent {
    /// The peer could not be reached.
    ConnectFailed,
    /// The connection stands.
    Connected,
    /// The state could not be sent.
    SendFailed,
    /// The state was sent.
    Sent,
    /// A message came back and holds the peer's view.
    Answer(NetworkState),
    /// A message came back and could not be read as a view.
    Unreadable,
    /// The connection ended or failed before a message came back.
    Closed,
}

/// What to do next in the exchange with one peer.
#[derive(Debug, PartialEq, Eq)]
pub enum ExchangeStep {
    /// Send the state.
    Send,
    /// Wait for the one message that the peer sends back.
    Receive,
    /// The exchange is over, with the peer's view or without an answer.
    Finish(Option<NetworkState>),
}

/// Decides how the exchange with one peer goes on after `event`. At most
/// one message is read back. A peer that cannot be reached, that the state
/// cannot be sent to, whose connection ends first, or whose message cannot
/// be read has given no answer.
pub fn exchange_step(event: ExchangeEvent) -> (step: ExchangeStep)
    ensures
        step == match event {
            ExchangeEvent::ConnectFailed => ExchangeStep::Finish(None),
            ExchangeEvent::Connected => ExchangeStep::Send,
            ExchangeEvent::SendFailed => ExchangeStep::Finish(None),
            ExchangeEvent::Sent => ExchangeStep::Receive,
            ExchangeEvent::Answer(state) => ExchangeStep::Finish(Some(state)),
            ExchangeEvent::Unreadable => ExchangeStep::Finish(None),
            ExchangeEvent::Closed => ExchangeStep::Finish(None),
        },
{
    match event {
        ExchangeEvent::ConnectFailed => ExchangeStep::Finish(None),
        ExchangeEvent::Connected => ExchangeStep::Send,
        ExchangeEvent::SendFailed => ExchangeStep::Finish(None),
        ExchangeEvent::Sent => ExchangeStep::Receive,
        ExchangeEvent::Answer(state) => ExchangeStep::Finish(Some(state)),
        ExchangeEvent::Unreadable => ExchangeStep::Finish(None),
        ExchangeEvent::Closed => ExchangeStep::Finish(None),
    }
}

} // verus!
