//! What holds of every merge.
//!
//! Of all views: no mark is left and the node's own entry carries the time
//! of the merge (`lemma_merge_settles`); a peer stays known exactly when
//! something speaks for it (`lemma_merge_survival`); every entry has its
//! origin in one of the two views (`lemma_merge_entry_origin`).
//!
//! Of views that name no peer twice: they stay so
//! (`lemma_merge_stays_distinct`, `lemma_merge_well_formed`); no version
//! goes down (`lemma_merge_versions_grow`, `lemma_merge_version`); what
//! becomes of each entry and of each report is told one by one
//! (`lemma_merge_known_entry`, `lemma_merge_new_entry`); and a second merge
//! of the same message changes nothing exactly when no report is
//! unsettling (`lemma_merge_idempotent`, `lemma_merge_idempotent_exactly`).

use vstd::prelude::*;

use crate::common::{
    distinct_ids, first_with_id, knows, lemma_distinct_first, lemma_distinct_ids_step,
    lemma_first_with_id_step, lemma_known_has_first, NetworkView, PeerView,
};
use crate::sync::{
    absorbed, absorbed_all, adopts, merged, newcomer, pruned, reconciled, retained, settled,
    still_alive, unmarked, unmarked_all,
};

verus! {

/// One report changes at most the first entry about its peer, or adds one
/// entry at the end; it never changes whom an entry is about, and never
/// lowers a version.
pub proof fn lemma_absorbed_shape(
    local: Seq<PeerView>,
    f: PeerView,
    sender: Seq<char>,
    alive_duration: nat,
    now: nat,
)
    ensures
        local.len() <= absorbed(local, f, sender, alive_duration, now).len() <= local.len() + 1,
        forall|i: int|
            0 <= i < local.len() ==> {
                let after = #[trigger] absorbed(local, f, sender, alive_duration, now)[i];
                &&& after.id == local[i].id
                &&& after.version >= local[i].version
                &&& local[i].id != f.id ==> after == local[i]
            },
        absorbed(local, f, sender, alive_duration, now).len() == local.len() + 1 ==> {
            &&& !knows(local, f.id)
            &&& absorbed(local, f, sender, alive_duration, now).last() == newcomer(
                f,
                f.id == sender,
            )
        },
        knows(local, f.id) ==> absorbed(local, f, sender, alive_duration, now).len()
            == local.len(),
        distinct_ids(local) ==> distinct_ids(absorbed(local, f, sender, alive_duration, now)),
{
    let after = absorbed(local, f, sender, alive_duration, now);
    if knows(local, f.id) {
        lemma_known_has_first(local, f.id);
    }
    if distinct_ids(local) {
        assert forall|i: int, j: int| 0 <= i < j < after.len() implies (#[trigger] after[i]).id != (
        #[trigger] after[j]).id by {
            if j < local.len() {
                assert(after[i].id == local[i].id);
                assert(after[j].id == local[j].id);
            } else {
                assert(after[i].id == local[i].id);
            }
        }
    }
}

/// The reports of a message change no entry's peer, lower no version, keep
/// the entries distinct, and add entries only for peers that the message
/// names and that were not known.
pub proof fn lemma_absorbed_all_shape(
    local: Seq<PeerView>,
    incoming: Seq<PeerView>,
    sender: Seq<char>,
    alive_duration: nat,
    now: nat,
)
    ensures
        local.len() <= absorbed_all(local, incoming, sender, alive_duration, now).len()
            <= local.len() + incoming.len(),
        forall|i: int|
            0 <= i < local.len() ==> {
                let after = #[trigger] absorbed_all(
                    local,
                    incoming,
                    sender,
                    alive_duration,
                    now,
                )[i];
                &&& after.id == local[i].id
                &&& after.version >= local[i].version
            },
        forall|i: int|
            local.len() <= i < absorbed_all(local, incoming, sender, alive_duration, now).len()
                ==> {
                let added = #[trigger] absorbed_all(
                    local,
                    incoming,
                    sender,
                    alive_duration,
                    now,
                )[i];
                &&& knows(incoming, added.id)
                &&& !knows(local, added.id)
            },
        distinct_ids(local) ==> distinct_ids(
            absorbed_all(local, incoming, sender, alive_duration, now),
        ),
    decreases incoming.len(),
{
    if incoming.len() > 0 {
        let f = incoming.last();
        let reached = absorbed_all(local, incoming.drop_last(), sender, alive_duration, now);
        let after = absorbed_all(local, incoming, sender, alive_duration, now);
        lemma_absorbed_all_shape(local, incoming.drop_last(), sender, alive_duration, now);
        lemma_absorbed_shape(reached, f, sender, alive_duration, now);
        assert(after == absorbed(reached, f, sender, alive_duration, now));
        assert forall|i: int| 0 <= i < local.len() implies {
            let entry = #[trigger] after[i];
            &&& entry.id == local[i].id
            &&& entry.version >= local[i].version
        } by {
            assert(reached[i].id == local[i].id);
        }
        assert forall|i: int| local.len() <= i < after.len() implies {
            let added = #[trigger] after[i];
            &&& knows(incoming, added.id)
            &&& !knows(local, added.id)
        } by {
            if i < reached.len() {
                let k = choose|k: int|
                    0 <= k < incoming.drop_last().len() && (#[trigger] incoming.drop_last()[k]).id
                        == reached[i].id;
                assert(incoming[k].id == after[i].id);
            } else {
                assert(after[i].id == f.id);
                assert(incoming[incoming.len() - 1].id == f.id);
                if knows(local, f.id) {
                    let w = choose|w: int| 0 <= w < local.len() && (#[trigger] local[w]).id == f.id;
                    assert(reached[w].id == f.id);
                }
            }
        }
    }
}

/// The entry `entry` of a pruned list stands for the entry at `i` of the
/// list before: that one was retained, and `entry` is what it settled to.
pub open spec fn kept_from(
    peers: Seq<PeerView>,
    me: Seq<char>,
    alive_duration: nat,
    now: nat,
    i: int,
    entry: PeerView,
) -> bool {
    &&& 0 <= i < peers.len()
    &&& retained(peers[i], me, alive_duration, now)
    &&& entry == settled(peers[i], me, now)
}

/// Some retained entry of `peers` settled to `entry`.
pub open spec fn settled_from(
    peers: Seq<PeerView>,
    me: Seq<char>,
    alive_duration: nat,
    now: nat,
    entry: PeerView,
) -> bool {
    exists|i: int| kept_from(peers, me, alive_duration, now, i, entry)
}

/// Every entry of a pruned list stands for a retained entry of the list
/// before.
pub proof fn lemma_pruned_sound(
    peers: Seq<PeerView>,
    me: Seq<char>,
    alive_duration: nat,
    now: nat,
)
    ensures
        pruned(peers, me, alive_duration, now).len() <= peers.len(),
        forall|j: int|
            0 <= j < pruned(peers, me, alive_duration, now).len() ==> settled_from(
                peers,
                me,
                alive_duration,
                now,
                #[trigger] pruned(peers, me, alive_duration, now)[j],
            ),
    decreases peers.len(),
{
    if peers.len() > 0 {
        let rest = peers.drop_last();
        let out = pruned(peers, me, alive_duration, now);
        lemma_pruned_sound(rest, me, alive_duration, now);
        assert forall|j: int| 0 <= j < out.len() implies settled_from(
            peers,
            me,
            alive_duration,
            now,
            #[trigger] out[j],
        ) by {
            if j < pruned(rest, me, alive_duration, now).len() {
                let i = choose|i: int|
                    kept_from(
                        rest,
                        me,
                        alive_duration,
                        now,
                        i,
                        pruned(rest, me, alive_duration, now)[j],
                    );
                assert(kept_from(peers, me, alive_duration, now, i, out[j]));
            } else {
                assert(kept_from(peers, me, alive_duration, now, peers.len() - 1, out[j]));
            }
        }
    }
}

/// Every retained entry has its settled form in the pruned list.
pub proof fn lemma_pruned_complete(
    peers: Seq<PeerView>,
    me: Seq<char>,
    alive_duration: nat,
    now: nat,
    i: int,
)
    requires
        0 <= i < peers.len(),
        retained(peers[i], me, alive_duration, now),
    ensures
        exists|j: int|
            0 <= j < pruned(peers, me, alive_duration, now).len() && #[trigger] pruned(
                peers,
                me,
                alive_duration,
                now,
            )[j] == settled(peers[i], me, now),
    decreases peers.len(),
{
    let out = pruned(peers, me, alive_duration, now);
    if i == peers.len() - 1 {
        assert(out[out.len() - 1] == settled(peers[i], me, now));
    } else {
        lemma_pruned_complete(peers.drop_last(), me, alive_duration, now, i);
        let j = choose|j: int|
            0 <= j < pruned(peers.drop_last(), me, alive_duration, now).len() && #[trigger] pruned(
                peers.drop_last(),
                me,
                alive_duration,
                now,
            )[j] == settled(peers[i], me, now);
        assert(out[j] == settled(peers[i], me, now));
    }
}

/// Pruning keeps distinct entries distinct.
pub proof fn lemma_pruned_distinct(
    peers: Seq<PeerView>,
    me: Seq<char>,
    alive_duration: nat,
    now: nat,
)
    requires
        distinct_ids(peers),
    ensures
        distinct_ids(pruned(peers, me, alive_duration, now)),
    decreases peers.len(),
{
    if peers.len() > 0 {
        let rest = peers.drop_last();
        let head = pruned(rest, me, alive_duration, now);
        let out = pruned(peers, me, alive_duration, now);
        assert forall|i: int, j: int| 0 <= i < j < rest.len() implies (#[trigger] rest[i]).id != (
        #[trigger] rest[j]).id by {
            assert(peers[i].id != peers[j].id);
        }
        lemma_pruned_distinct(rest, me, alive_duration, now);
        lemma_pruned_sound(rest, me, alive_duration, now);
        assert forall|i: int, j: int| 0 <= i < j < out.len() implies (#[trigger] out[i]).id != (
        #[trigger] out[j]).id by {
            if j < head.len() {
                assert(head[i].id != head[j].id);
            } else {
                let w = choose|w: int| kept_from(rest, me, alive_duration, now, w, head[i]);
                assert(peers[w].id != peers[peers.len() - 1].id);
            }
        }
    }
}

/// The entries of `local` as the reports of `foreign` leave them, before
/// the merge settles which of them stay.
pub open spec fn gathered(
    local: NetworkView,
    foreign: NetworkView,
    alive_duration: nat,
    now: nat,
) -> Seq<PeerView> {
    absorbed_all(unmarked_all(local.peers), foreign.peers, foreign.sender, alive_duration, now)
}

/// A merge keeps the entries distinct.
pub proof fn lemma_merge_stays_distinct(
    local: NetworkView,
    foreign: NetworkView,
    alive_duration: nat,
    now: nat,
)
    requires
        distinct_ids(local.peers),
    ensures
        distinct_ids(merged(local, foreign, alive_duration, now).peers),
{
    let start = unmarked_all(local.peers);
    lemma_unmarked_all_ids(local.peers);
    lemma_absorbed_all_shape(start, foreign.peers, foreign.sender, alive_duration, now);
    lemma_pruned_distinct(
        gathered(local, foreign, alive_duration, now),
        local.sender,
        alive_duration,
        now,
    );
}

/// After a merge no entry carries a mark, and every entry about the node
/// itself is stamped with `now`.
pub proof fn lemma_merge_settles(
    local: NetworkView,
    foreign: NetworkView,
    alive_duration: nat,
    now: nat,
)
    ensures
        forall|j: int|
            0 <= j < merged(local, foreign, alive_duration, now).peers.len() ==> {
                let entry = #[trigger] merged(local, foreign, alive_duration, now).peers[j];
                &&& entry.updated is None
                &&& entry.id == local.sender ==> entry.heartbeat == now
            },
{
    let mid = gathered(local, foreign, alive_duration, now);
    let out = merged(local, foreign, alive_duration, now).peers;
    lemma_pruned_sound(mid, local.sender, alive_duration, now);
    assert forall|j: int| 0 <= j < out.len() implies {
        let entry = #[trigger] out[j];
        &&& entry.updated is None
        &&& entry.id == local.sender ==> entry.heartbeat == now
    } by {
        assert(settled_from(mid, local.sender, alive_duration, now, out[j]));
    }
}

/// A merge never drops the node's own entry.
pub proof fn lemma_merge_keeps_self(
    local: NetworkView,
    foreign: NetworkView,
    alive_duration: nat,
    now: nat,
)
    requires
        knows(local.peers, local.sender),
    ensures
        knows(merged(local, foreign, alive_duration, now).peers, local.sender),
{
    let start = unmarked_all(local.peers);
    let mid = gathered(local, foreign, alive_duration, now);
    let out = merged(local, foreign, alive_duration, now).peers;
    let w = choose|w: int|
        0 <= w < local.peers.len() && (#[trigger] local.peers[w]).id == local.sender;
    assert(start[w].id == local.sender);
    lemma_absorbed_all_shape(start, foreign.peers, foreign.sender, alive_duration, now);
    assert(mid[w].id == local.sender);
    lemma_pruned_complete(mid, local.sender, alive_duration, now, w);
    let j = choose|j: int|
        0 <= j < out.len() && #[trigger] out[j] == settled(mid[w], local.sender, now);
    assert(out[j].id == local.sender);
}

/// A view that a node may hold is still one after any merge: the entries
/// are distinct and the node's own entry is among them.
pub proof fn lemma_merge_well_formed(
    local: NetworkView,
    foreign: NetworkView,
    alive_duration: nat,
    now: nat,
)
    requires
        local.well_formed(),
    ensures
        merged(local, foreign, alive_duration, now).well_formed(),
{
    lemma_merge_stays_distinct(local, foreign, alive_duration, now);
    lemma_merge_keeps_self(local, foreign, alive_duration, now);
}

/// A peer is known after a merge exactly when the reports left an entry
/// about it that is the node's own, was marked by this merge, or is still
/// alive by its heartbeat.
pub proof fn lemma_merge_survival(
    local: NetworkView,
    foreign: NetworkView,
    alive_duration: nat,
    now: nat,
    id: Seq<char>,
)
    ensures
        knows(merged(local, foreign, alive_duration, now).peers, id) <==> exists|i: int|
            0 <= i < gathered(local, foreign, alive_duration, now).len() && (#[trigger] gathered(
                local,
                foreign,
                alive_duration,
                now,
            )[i]).id == id && retained(
                gathered(local, foreign, alive_duration, now)[i],
                local.sender,
                alive_duration,
                now,
            ),
{
    let mid = gathered(local, foreign, alive_duration, now);
    let out = merged(local, foreign, alive_duration, now).peers;
    lemma_pruned_sound(mid, local.sender, alive_duration, now);
    if knows(out, id) {
        let j = choose|j: int| 0 <= j < out.len() && (#[trigger] out[j]).id == id;
        assert(settled_from(mid, local.sender, alive_duration, now, out[j]));
        let i = choose|i: int| kept_from(mid, local.sender, alive_duration, now, i, out[j]);
        assert(mid[i].id == id && retained(mid[i], local.sender, alive_duration, now));
    }
    if exists|i: int|
        0 <= i < mid.len() && (#[trigger] mid[i]).id == id && retained(
            mid[i],
            local.sender,
            alive_duration,
            now,
        ) {
        let i = choose|i: int|
            0 <= i < mid.len() && (#[trigger] mid[i]).id == id && retained(
                mid[i],
                local.sender,
                alive_duration,
                now,
            );
        lemma_pruned_complete(mid, local.sender, alive_duration, now, i);
        let j = choose|j: int|
            0 <= j < out.len() && #[trigger] out[j] == settled(mid[i], local.sender, now);
        assert(out[j].id == id);
    }
}

/// Where the entries are distinct, a merge lowers no version: a peer known
/// before and after has at least the version it had.
pub proof fn lemma_merge_versions_grow(
    local: NetworkView,
    foreign: NetworkView,
    alive_duration: nat,
    now: nat,
    i: int,
    j: int,
)
    requires
        distinct_ids(local.peers),
        0 <= i < local.peers.len(),
        0 <= j < merged(local, foreign, alive_duration, now).peers.len(),
        merged(local, foreign, alive_duration, now).peers[j].id == local.peers[i].id,
    ensures
        merged(local, foreign, alive_duration, now).peers[j].version >= local.peers[i].version,
{
    let start = unmarked_all(local.peers);
    let mid = gathered(local, foreign, alive_duration, now);
    let out = merged(local, foreign, alive_duration, now).peers;
    lemma_unmarked_all_ids(local.peers);
    lemma_absorbed_all_shape(start, foreign.peers, foreign.sender, alive_duration, now);
    lemma_pruned_sound(mid, local.sender, alive_duration, now);
    assert(settled_from(mid, local.sender, alive_duration, now, out[j]));
    let w = choose|w: int| kept_from(mid, local.sender, alive_duration, now, w, out[j]);
    assert(mid[i].id == start[i].id);
    assert(start[i].id == local.peers[i].id);
    if w != i {
        if w < i {
            assert(mid[w].id != mid[i].id);
        } else {
            assert(mid[i].id != mid[w].id);
        }
    }
    assert(mid[i].version >= start[i].version);
}

/// What the reports `incoming` make of the entry `r`: the report about the
/// same peer is read into it, and where there is none it stays as it is.
pub open spec fn after_reports(
    r: PeerView,
    incoming: Seq<PeerView>,
    sender: Seq<char>,
    now: nat,
) -> PeerView {
    if knows(incoming, r.id) {
        reconciled(r, incoming[first_with_id(incoming, r.id)], r.id == sender, now)
    } else {
        r
    }
}

/// Where neither side names a peer twice, each entry meets at most one
/// report, the one about its own peer, and is what that report makes of it.
pub proof fn lemma_absorbed_all_tracks(
    local: Seq<PeerView>,
    incoming: Seq<PeerView>,
    sender: Seq<char>,
    alive_duration: nat,
    now: nat,
    i: int,
)
    requires
        distinct_ids(local),
        distinct_ids(incoming),
        0 <= i < local.len(),
    ensures
        absorbed_all(local, incoming, sender, alive_duration, now)[i] == after_reports(
            local[i],
            incoming,
            sender,
            now,
        ),
    decreases incoming.len(),
{
    if incoming.len() > 0 {
        let rest = incoming.drop_last();
        let f = incoming.last();
        let reached = absorbed_all(local, rest, sender, alive_duration, now);
        lemma_distinct_ids_step(incoming);
        lemma_absorbed_all_tracks(local, rest, sender, alive_duration, now, i);
        lemma_absorbed_all_shape(local, rest, sender, alive_duration, now);
        lemma_absorbed_shape(reached, f, sender, alive_duration, now);
        lemma_first_with_id_step(incoming, local[i].id);
        let after = absorbed(reached, f, sender, alive_duration, now);
        assert(absorbed_all(local, incoming, sender, alive_duration, now) == after);
        assert(reached[i].id == local[i].id);
        if f.id == local[i].id {
            lemma_distinct_first(reached, i);
            assert(reached[i] == local[i]);
            assert(incoming[incoming.len() - 1] == f);
            assert(after[i] == reconciled(reached[i], f, f.id == sender, now));
        } else {
            assert(after[i] == reached[i]);
            if knows(rest, local[i].id) {
                lemma_known_has_first(rest, local[i].id);
                let at = first_with_id(rest, local[i].id);
                assert(incoming[at] == rest[at]);
            }
        }
    }
}

/// Where neither side names a peer twice, the version that a merge leaves
/// for a peer named by both is the greater of the two where the report is
/// adopted, and the one held before where it is not.
pub proof fn lemma_merge_version(
    local: NetworkView,
    foreign: NetworkView,
    alive_duration: nat,
    now: nat,
    i: int,
    k: int,
    j: int,
)
    requires
        distinct_ids(local.peers),
        distinct_ids(foreign.peers),
        0 <= i < local.peers.len(),
        0 <= k < foreign.peers.len(),
        0 <= j < merged(local, foreign, alive_duration, now).peers.len(),
        foreign.peers[k].id == local.peers[i].id,
        merged(local, foreign, alive_duration, now).peers[j].id == local.peers[i].id,
    ensures
        merged(local, foreign, alive_duration, now).peers[j].version == if adopts(
            local.peers[i],
            foreign.peers[k],
            foreign.peers[k].id == foreign.sender,
        ) {
            foreign.peers[k].version
        } else {
            local.peers[i].version
        },
        merged(local, foreign, alive_duration, now).peers[j].version >= local.peers[i].version,
{
    let start = unmarked_all(local.peers);
    let mid = gathered(local, foreign, alive_duration, now);
    let out = merged(local, foreign, alive_duration, now).peers;
    lemma_unmarked_all_ids(local.peers);
    lemma_absorbed_all_shape(start, foreign.peers, foreign.sender, alive_duration, now);
    lemma_absorbed_all_tracks(start, foreign.peers, foreign.sender, alive_duration, now, i);
    lemma_distinct_first(foreign.peers, k);
    lemma_pruned_sound(mid, local.sender, alive_duration, now);
    assert(settled_from(mid, local.sender, alive_duration, now, out[j]));
    let w = choose|w: int| kept_from(mid, local.sender, alive_duration, now, w, out[j]);
    assert(mid[i].id == start[i].id);
    if w != i {
        if w < i {
            assert(mid[w].id != mid[i].id);
        } else {
            assert(mid[i].id != mid[w].id);
        }
    }
}

/// The report `f` of a message from `sender` gives an entry to a peer that
/// is not known: it is the sender's own, or its heartbeat is recent enough.
pub open spec fn admits(f: PeerView, sender: Seq<char>, alive_duration: nat, now: nat) -> bool {
    f.id == sender || still_alive(f.heartbeat, alive_duration, now)
}

/// Where every report is about a known peer or admits none, the reports add
/// no entry.
pub proof fn lemma_absorbed_all_adds_none(
    local: Seq<PeerView>,
    incoming: Seq<PeerView>,
    sender: Seq<char>,
    alive_duration: nat,
    now: nat,
)
    requires
        forall|k: int|
            0 <= k < incoming.len() ==> knows(local, (#[trigger] incoming[k]).id) || !admits(
                incoming[k],
                sender,
                alive_duration,
                now,
            ),
    ensures
        absorbed_all(local, incoming, sender, alive_duration, now).len() == local.len(),
    decreases incoming.len(),
{
    if incoming.len() > 0 {
        let rest = incoming.drop_last();
        let f = incoming.last();
        let reached = absorbed_all(local, rest, sender, alive_duration, now);
        assert forall|k: int| 0 <= k < rest.len() implies knows(local, (#[trigger] rest[k]).id)
            || !admits(rest[k], sender, alive_duration, now) by {
            assert(rest[k] == incoming[k]);
        }
        lemma_absorbed_all_adds_none(local, rest, sender, alive_duration, now);
        lemma_absorbed_all_shape(local, rest, sender, alive_duration, now);
        lemma_absorbed_shape(reached, f, sender, alive_duration, now);
        assert(incoming[incoming.len() - 1] == f);
        if knows(local, f.id) {
            let w = choose|w: int| 0 <= w < local.len() && (#[trigger] local[w]).id == f.id;
            assert(reached[w].id == f.id);
            assert(knows(reached, f.id));
        }
    }
}

/// Where the message names no peer twice, a report that admits a peer not
/// known before leaves the entry of a newcomer for it.
pub proof fn lemma_absorbed_all_adds(
    local: Seq<PeerView>,
    incoming: Seq<PeerView>,
    sender: Seq<char>,
    alive_duration: nat,
    now: nat,
    k: int,
)
    requires
        distinct_ids(incoming),
        0 <= k < incoming.len(),
        !knows(local, incoming[k].id),
        admits(incoming[k], sender, alive_duration, now),
    ensures
        exists|p: int|
            local.len() <= p < absorbed_all(local, incoming, sender, alive_duration, now).len()
                && #[trigger] absorbed_all(local, incoming, sender, alive_duration, now)[p]
                == newcomer(incoming[k], incoming[k].id == sender),
    decreases incoming.len(),
{
    let rest = incoming.drop_last();
    let f = incoming.last();
    let reached = absorbed_all(local, rest, sender, alive_duration, now);
    let after = absorbed_all(local, incoming, sender, alive_duration, now);
    lemma_distinct_ids_step(incoming);
    lemma_absorbed_all_shape(local, rest, sender, alive_duration, now);
    lemma_absorbed_shape(reached, f, sender, alive_duration, now);
    assert(after == absorbed(reached, f, sender, alive_duration, now));
    if k == incoming.len() - 1 {
        assert(!knows(reached, f.id)) by {
            if knows(reached, f.id) {
                let w = choose|w: int| 0 <= w < reached.len() && (#[trigger] reached[w]).id == f.id;
                if w < local.len() {
                    assert(local[w].id == f.id);
                } else {
                    assert(knows(rest, reached[w].id));
                }
            }
        }
        assert(after[after.len() - 1] == newcomer(f, f.id == sender));
    } else {
        assert(rest[k] == incoming[k]);
        lemma_absorbed_all_adds(local, rest, sender, alive_duration, now, k);
        let p = choose|p: int|
            local.len() <= p < reached.len() && #[trigger] reached[p] == newcomer(
                incoming[k],
                incoming[k].id == sender,
            );
        assert(incoming[k].id != incoming[incoming.len() - 1].id);
        assert(after[p] == reached[p]);
    }
}

/// Where the message names no peer twice, every entry that its reports add
/// is the newcomer of one report that admits a peer not known before.
pub proof fn lemma_absorbed_all_added(
    local: Seq<PeerView>,
    incoming: Seq<PeerView>,
    sender: Seq<char>,
    alive_duration: nat,
    now: nat,
    p: int,
)
    requires
        distinct_ids(incoming),
        local.len() <= p < absorbed_all(local, incoming, sender, alive_duration, now).len(),
    ensures
        exists|k: int|
            0 <= k < incoming.len() && !knows(local, (#[trigger] incoming[k]).id) && admits(
                incoming[k],
                sender,
                alive_duration,
                now,
            ) && absorbed_all(local, incoming, sender, alive_duration, now)[p] == newcomer(
                incoming[k],
                incoming[k].id == sender,
            ),
    decreases incoming.len(),
{
    if incoming.len() > 0 {
        let rest = incoming.drop_last();
        let f = incoming.last();
        let reached = absorbed_all(local, rest, sender, alive_duration, now);
        let after = absorbed_all(local, incoming, sender, alive_duration, now);
        lemma_distinct_ids_step(incoming);
        lemma_absorbed_all_shape(local, rest, sender, alive_duration, now);
        lemma_absorbed_shape(reached, f, sender, alive_duration, now);
        assert(after == absorbed(reached, f, sender, alive_duration, now));
        if p < reached.len() {
            lemma_absorbed_all_added(local, rest, sender, alive_duration, now, p);
            let k = choose|k: int|
                0 <= k < rest.len() && !knows(local, (#[trigger] rest[k]).id) && admits(
                    rest[k],
                    sender,
                    alive_duration,
                    now,
                ) && reached[p] == newcomer(rest[k], rest[k].id == sender);
            assert(incoming[k] == rest[k]);
            assert(incoming[k].id != incoming[incoming.len() - 1].id);
            assert(after[p] == reached[p]);
        } else {
            let k = incoming.len() - 1;
            assert(incoming[k] == f);
            assert(!knows(reached, f.id));
            if knows(local, f.id) {
                let w = choose|w: int| 0 <= w < local.len() && (#[trigger] local[w]).id == f.id;
                assert(reached[w].id == f.id);
            }
        }
    }
}

/// A list whose entries are all retained is pruned to its entries, each
/// one settled.
pub proof fn lemma_pruned_keeps_all(
    peers: Seq<PeerView>,
    kept: Seq<PeerView>,
    me: Seq<char>,
    alive_duration: nat,
    now: nat,
)
    requires
        kept.len() == peers.len(),
        forall|j: int|
            0 <= j < peers.len() ==> retained(#[trigger] peers[j], me, alive_duration, now)
                && settled(peers[j], me, now) == kept[j],
    ensures
        pruned(peers, me, alive_duration, now) == kept,
    decreases peers.len(),
{
    if peers.len() > 0 {
        let rest = peers.drop_last();
        let head = kept.drop_last();
        assert forall|j: int| 0 <= j < rest.len() implies retained(
            #[trigger] rest[j],
            me,
            alive_duration,
            now,
        ) && settled(rest[j], me, now) == head[j] by {
            assert(rest[j] == peers[j]);
        }
        lemma_pruned_keeps_all(rest, head, me, alive_duration, now);
        assert(peers[peers.len() - 1] == peers.last());
        assert(pruned(peers, me, alive_duration, now) =~= kept);
    } else {
        assert(pruned(peers, me, alive_duration, now) =~= kept);
    }
}

/// Taking the marks off changes no entry's peer.
pub proof fn lemma_unmarked_all_ids(peers: Seq<PeerView>)
    ensures
        unmarked_all(peers).len() == peers.len(),
        forall|i: int|
            0 <= i < peers.len() ==> #[trigger] unmarked_all(peers)[i] == unmarked(peers[i]),
        forall|id: Seq<char>| knows(unmarked_all(peers), id) <==> #[trigger] knows(peers, id),
        distinct_ids(peers) ==> distinct_ids(unmarked_all(peers)),
{
    let bare = unmarked_all(peers);
    assert forall|id: Seq<char>| knows(bare, id) <==> #[trigger] knows(peers, id) by {
        if knows(bare, id) {
            let w = choose|w: int| 0 <= w < bare.len() && (#[trigger] bare[w]).id == id;
            assert(peers[w].id == id);
        }
        if knows(peers, id) {
            let w = choose|w: int| 0 <= w < peers.len() && (#[trigger] peers[w]).id == id;
            assert(bare[w].id == id);
        }
    }
    if distinct_ids(peers) {
        assert forall|i: int, j: int| 0 <= i < j < bare.len() implies (#[trigger] bare[i]).id != (
        #[trigger] bare[j]).id by {
            assert(peers[i].id != peers[j].id);
        }
    }
}

/// A second merge of the report `f` would not leave things as the first
/// merge left them. With `r` the entry that `local` holds about the peer of
/// `f`, that is so in five cases:
///
/// - `f` is the sender's own and the sender is new to the node, but its
///   heartbeat is not `now`: the second merge finds the sender known and
///   stamps it with `now`;
/// - `f` is about a third party and is adopted, but its heartbeat is too
///   old: the mark saves the entry once, and the second merge drops it;
/// - `f` is about a third party and is ignored, `r` is dead and leaves, and
///   `f` is alive: the second merge adds the peer anew, from scratch;
/// - `f` is about the node itself, as a third party, with a higher version
///   and a heartbeat after `now` but not after that of `r`: the first merge
///   ignores it and stamps `r` with `now`, so the second adopts it;
/// - `f` is about the node itself, as a third party, the node has no entry
///   of its own, and `f` has a version above 0 and a heartbeat after `now`:
///   the first merge adds the node from scratch, the second adopts `f`.
pub open spec fn unsettling(
    local: NetworkView,
    f: PeerView,
    sender: Seq<char>,
    alive_duration: nat,
    now: nat,
) -> bool {
    let from_owner = f.id == sender;
    let own = f.id == local.sender;
    if knows(local.peers, f.id) {
        let r = local.peers[first_with_id(local.peers, f.id)];
        if from_owner {
            false
        } else if own {
            f.version > r.version && f.heartbeat <= r.heartbeat && f.heartbeat > now
        } else if adopts(r, f, false) {
            !still_alive(f.heartbeat, alive_duration, now)
        } else if f.version == r.version && f.heartbeat > r.heartbeat {
            false
        } else {
            !still_alive(r.heartbeat, alive_duration, now) && still_alive(
                f.heartbeat,
                alive_duration,
                now,
            )
        }
    } else if from_owner {
        !own && f.heartbeat != now
    } else {
        own && f.version > 0 && f.heartbeat > now
    }
}

/// No report of `foreign` is unsettling for `local`.
pub open spec fn steady(
    local: NetworkView,
    foreign: NetworkView,
    alive_duration: nat,
    now: nat,
) -> bool {
    forall|k: int|
        0 <= k < foreign.peers.len() ==> !unsettling(
            local,
            #[trigger] foreign.peers[k],
            foreign.sender,
            alive_duration,
            now,
        )
}

/// Where no report is unsettling, a report that admits its peer finds it
/// known after the merge.
proof fn lemma_report_stays_known(
    local: NetworkView,
    foreign: NetworkView,
    alive_duration: nat,
    now: nat,
    k: int,
)
    requires
        distinct_ids(local.peers),
        distinct_ids(foreign.peers),
        steady(local, foreign, alive_duration, now),
        0 <= k < foreign.peers.len(),
        admits(foreign.peers[k], foreign.sender, alive_duration, now),
    ensures
        knows(merged(local, foreign, alive_duration, now).peers, foreign.peers[k].id),
{
    let me = local.sender;
    let x = foreign.peers;
    let f = x[k];
    let start = unmarked_all(local.peers);
    let mid = gathered(local, foreign, alive_duration, now);
    let out = merged(local, foreign, alive_duration, now).peers;
    lemma_unmarked_all_ids(local.peers);
    lemma_absorbed_all_shape(start, x, foreign.sender, alive_duration, now);
    assert(!unsettling(local, f, foreign.sender, alive_duration, now));
    lemma_distinct_first(x, k);
    let at: int;
    if knows(local.peers, f.id) {
        lemma_known_has_first(local.peers, f.id);
        let i = first_with_id(local.peers, f.id);
        assert(start[i] == unmarked(local.peers[i]));
        lemma_absorbed_all_tracks(start, x, foreign.sender, alive_duration, now, i);
        assert(mid[i] == reconciled(start[i], f, f.id == foreign.sender, now));
        assert(retained(mid[i], me, alive_duration, now));
        at = i;
    } else {
        assert(!knows(start, f.id));
        lemma_absorbed_all_adds(start, x, foreign.sender, alive_duration, now, k);
        let p = choose|p: int|
            start.len() <= p < mid.len() && #[trigger] mid[p] == newcomer(
                f,
                f.id == foreign.sender,
            );
        at = p;
    }
    assert(mid[at].id == f.id);
    lemma_pruned_complete(mid, me, alive_duration, now, at);
    let j = choose|j: int| 0 <= j < out.len() && #[trigger] out[j] == settled(mid[at], me, now);
    assert(out[j].id == f.id);
}

/// Where no report is unsettling, the reports leave every entry of the
/// merged view as it is, but for marks, and give no cause to drop it.
proof fn lemma_entry_stays(
    local: NetworkView,
    foreign: NetworkView,
    alive_duration: nat,
    now: nat,
    j: int,
)
    requires
        distinct_ids(local.peers),
        distinct_ids(foreign.peers),
        steady(local, foreign, alive_duration, now),
        0 <= j < merged(local, foreign, alive_duration, now).peers.len(),
    ensures
        ({
            let q = merged(local, foreign, alive_duration, now).peers[j];
            let again = after_reports(q, foreign.peers, foreign.sender, now);
            &&& retained(again, local.sender, alive_duration, now)
            &&& settled(again, local.sender, now) == q
        }),
{
    let me = local.sender;
    let x = foreign.peers;
    let start = unmarked_all(local.peers);
    let mid = gathered(local, foreign, alive_duration, now);
    let out = merged(local, foreign, alive_duration, now).peers;
    let q = out[j];
    lemma_unmarked_all_ids(local.peers);
    lemma_absorbed_all_shape(start, x, foreign.sender, alive_duration, now);
    lemma_pruned_sound(mid, me, alive_duration, now);
    assert(settled_from(mid, me, alive_duration, now, q));
    let w = choose|w: int| kept_from(mid, me, alive_duration, now, w, q);
    if w < start.len() {
        lemma_absorbed_all_tracks(start, x, foreign.sender, alive_duration, now, w);
        assert(start[w] == unmarked(local.peers[w]));
        if knows(x, q.id) {
            lemma_known_has_first(x, q.id);
            let k = first_with_id(x, q.id);
            let f = x[k];
            assert(!unsettling(local, f, foreign.sender, alive_duration, now));
            lemma_distinct_first(local.peers, w);
            assert(mid[w] == reconciled(start[w], f, f.id == foreign.sender, now));
        }
    } else {
        lemma_absorbed_all_added(start, x, foreign.sender, alive_duration, now, w);
        let k = choose|k: int|
            0 <= k < x.len() && !knows(start, (#[trigger] x[k]).id) && admits(
                x[k],
                foreign.sender,
                alive_duration,
                now,
            ) && mid[w] == newcomer(x[k], x[k].id == foreign.sender);
        let f = x[k];
        assert(!unsettling(local, f, foreign.sender, alive_duration, now));
        lemma_distinct_first(x, k);
        assert(!knows(local.peers, f.id));
    }
}

/// Merging the same message a second time, at the same time, changes
/// nothing, where neither view names a peer twice and no report of the
/// message is unsettling.
pub proof fn lemma_merge_idempotent(
    local: NetworkView,
    foreign: NetworkView,
    alive_duration: nat,
    now: nat,
)
    requires
        distinct_ids(local.peers),
        distinct_ids(foreign.peers),
        steady(local, foreign, alive_duration, now),
    ensures
        merged(merged(local, foreign, alive_duration, now), foreign, alive_duration, now)
            == merged(local, foreign, alive_duration, now),
{
    let me = local.sender;
    let x = foreign.peers;
    let once = merged(local, foreign, alive_duration, now);
    let twice = merged(once, foreign, alive_duration, now);
    lemma_merge_stays_distinct(local, foreign, alive_duration, now);
    lemma_merge_settles(local, foreign, alive_duration, now);
    lemma_unmarked_all_ids(once.peers);
    assert(unmarked_all(once.peers) =~= once.peers) by {
        assert forall|j: int| 0 <= j < once.peers.len() implies unmarked_all(once.peers)[j]
            == once.peers[j] by {
            assert(once.peers[j].updated is None);
        }
    }
    let again = absorbed_all(once.peers, x, foreign.sender, alive_duration, now);
    assert forall|k: int| 0 <= k < x.len() implies knows(once.peers, (#[trigger] x[k]).id)
        || !admits(x[k], foreign.sender, alive_duration, now) by {
        if admits(x[k], foreign.sender, alive_duration, now) {
            lemma_report_stays_known(local, foreign, alive_duration, now, k);
        }
    }
    lemma_absorbed_all_adds_none(once.peers, x, foreign.sender, alive_duration, now);
    assert forall|j: int| 0 <= j < again.len() implies retained(
        #[trigger] again[j],
        me,
        alive_duration,
        now,
    ) && settled(again[j], me, now) == once.peers[j] by {
        lemma_absorbed_all_tracks(once.peers, x, foreign.sender, alive_duration, now, j);
        lemma_entry_stays(local, foreign, alive_duration, now, j);
    }
    lemma_pruned_keeps_all(again, once.peers, me, alive_duration, now);
    assert(twice.peers == once.peers);
}

/// Among distinct entries, an entry about a peer is the only one about it.
proof fn lemma_distinct_only(peers: Seq<PeerView>, i: int, j: int)
    requires
        distinct_ids(peers),
        0 <= i < peers.len(),
        0 <= j < peers.len(),
        peers[i].id == peers[j].id,
    ensures
        i == j,
{
    if i < j {
        assert(peers[i].id != peers[j].id);
    } else if j < i {
        assert(peers[j].id != peers[i].id);
    }
}

/// What a merge makes of an entry that the node holds, where neither view
/// names a peer twice: the report about the same peer is read into it; if
/// it is then retained it stays, settled, and else the peer is no longer
/// known.
pub proof fn lemma_merge_known_entry(
    local: NetworkView,
    foreign: NetworkView,
    alive_duration: nat,
    now: nat,
    i: int,
)
    requires
        distinct_ids(local.peers),
        distinct_ids(foreign.peers),
        0 <= i < local.peers.len(),
    ensures
        ({
            let read = after_reports(
                unmarked(local.peers[i]),
                foreign.peers,
                foreign.sender,
                now,
            );
            let out = merged(local, foreign, alive_duration, now).peers;
            if retained(read, local.sender, alive_duration, now) {
                &&& knows(out, local.peers[i].id)
                &&& out[first_with_id(out, local.peers[i].id)] == settled(read, local.sender, now)
            } else {
                !knows(out, local.peers[i].id)
            }
        }),
{
    let me = local.sender;
    let x = foreign.peers;
    let id = local.peers[i].id;
    let start = unmarked_all(local.peers);
    let mid = gathered(local, foreign, alive_duration, now);
    let out = merged(local, foreign, alive_duration, now).peers;
    lemma_unmarked_all_ids(local.peers);
    lemma_absorbed_all_shape(start, x, foreign.sender, alive_duration, now);
    lemma_absorbed_all_tracks(start, x, foreign.sender, alive_duration, now, i);
    lemma_merge_stays_distinct(local, foreign, alive_duration, now);
    lemma_pruned_sound(mid, me, alive_duration, now);
    assert(mid[i].id == id);
    if retained(mid[i], me, alive_duration, now) {
        lemma_pruned_complete(mid, me, alive_duration, now, i);
        let j = choose|j: int| 0 <= j < out.len() && #[trigger] out[j] == settled(mid[i], me, now);
        assert(out[j].id == id);
        lemma_distinct_first(out, j);
    } else {
        if knows(out, id) {
            let j = choose|j: int| 0 <= j < out.len() && (#[trigger] out[j]).id == id;
            assert(settled_from(mid, me, alive_duration, now, out[j]));
            let w = choose|w: int| kept_from(mid, me, alive_duration, now, w, out[j]);
            lemma_distinct_only(mid, w, i);
        }
    }
}

/// What a merge makes of a report about a peer that the node does not
/// know, where neither view names a peer twice: if the report admits the
/// peer, its newcomer stays, settled, and else the peer remains unknown.
pub proof fn lemma_merge_new_entry(
    local: NetworkView,
    foreign: NetworkView,
    alive_duration: nat,
    now: nat,
    k: int,
)
    requires
        distinct_ids(local.peers),
        distinct_ids(foreign.peers),
        0 <= k < foreign.peers.len(),
        !knows(local.peers, foreign.peers[k].id),
    ensures
        ({
            let f = foreign.peers[k];
            let out = merged(local, foreign, alive_duration, now).peers;
            if admits(f, foreign.sender, alive_duration, now) {
                &&& knows(out, f.id)
                &&& out[first_with_id(out, f.id)] == settled(
                    newcomer(f, f.id == foreign.sender),
                    local.sender,
                    now,
                )
            } else {
                !knows(out, f.id)
            }
        }),
{
    let me = local.sender;
    let x = foreign.peers;
    let f = x[k];
    let start = unmarked_all(local.peers);
    let mid = gathered(local, foreign, alive_duration, now);
    let out = merged(local, foreign, alive_duration, now).peers;
    lemma_unmarked_all_ids(local.peers);
    assert(!knows(start, f.id));
    lemma_absorbed_all_shape(start, x, foreign.sender, alive_duration, now);
    lemma_merge_stays_distinct(local, foreign, alive_duration, now);
    lemma_pruned_sound(mid, me, alive_duration, now);
    if admits(f, foreign.sender, alive_duration, now) {
        lemma_absorbed_all_adds(start, x, foreign.sender, alive_duration, now, k);
        let p = choose|p: int|
            start.len() <= p < mid.len() && #[trigger] mid[p] == newcomer(
                f,
                f.id == foreign.sender,
            );
        lemma_pruned_complete(mid, me, alive_duration, now, p);
        let j = choose|j: int| 0 <= j < out.len() && #[trigger] out[j] == settled(mid[p], me, now);
        assert(out[j].id == f.id);
        lemma_distinct_first(out, j);
    } else {
        if knows(out, f.id) {
            let j = choose|j: int| 0 <= j < out.len() && (#[trigger] out[j]).id == f.id;
            assert(settled_from(mid, me, alive_duration, now, out[j]));
            let w = choose|w: int| kept_from(mid, me, alive_duration, now, w, out[j]);
            assert(mid[w].id == f.id);
            if w < start.len() {
                assert(start[w].id == f.id);
            } else {
                lemma_absorbed_all_added(start, x, foreign.sender, alive_duration, now, w);
                let k2 = choose|k2: int|
                    0 <= k2 < x.len() && !knows(start, (#[trigger] x[k2]).id) && admits(
                        x[k2],
                        foreign.sender,
                        alive_duration,
                        now,
                    ) && mid[w] == newcomer(x[k2], x[k2].id == foreign.sender);
                lemma_distinct_only(x, k, k2);
            }
        }
    }
}

/// Every entry that a merge leaves is about a peer that the node knew, or
/// about one that the message names.
pub proof fn lemma_merge_entry_origin(
    local: NetworkView,
    foreign: NetworkView,
    alive_duration: nat,
    now: nat,
    j: int,
)
    requires
        0 <= j < merged(local, foreign, alive_duration, now).peers.len(),
    ensures
        ({
            let id = merged(local, foreign, alive_duration, now).peers[j].id;
            knows(local.peers, id) || knows(foreign.peers, id)
        }),
{
    let start = unmarked_all(local.peers);
    let mid = gathered(local, foreign, alive_duration, now);
    let out = merged(local, foreign, alive_duration, now).peers;
    lemma_unmarked_all_ids(local.peers);
    lemma_absorbed_all_shape(start, foreign.peers, foreign.sender, alive_duration, now);
    lemma_pruned_sound(mid, local.sender, alive_duration, now);
    assert(settled_from(mid, local.sender, alive_duration, now, out[j]));
    let w = choose|w: int| kept_from(mid, local.sender, alive_duration, now, w, out[j]);
    if w < start.len() {
        assert(local.peers[w].id == out[j].id);
    } else {
        assert(knows(foreign.peers, mid[w].id));
    }
}

/// An unsettling report makes a second merge of the same message differ
/// from the first, where neither view names a peer twice.
pub proof fn lemma_merge_unsettled(
    local: NetworkView,
    foreign: NetworkView,
    alive_duration: nat,
    now: nat,
    k: int,
)
    requires
        distinct_ids(local.peers),
        distinct_ids(foreign.peers),
        0 <= k < foreign.peers.len(),
        unsettling(local, foreign.peers[k], foreign.sender, alive_duration, now),
    ensures
        merged(merged(local, foreign, alive_duration, now), foreign, alive_duration, now)
            != merged(local, foreign, alive_duration, now),
{
    let x = foreign.peers;
    let f = x[k];
    let once = merged(local, foreign, alive_duration, now);
    let twice = merged(once, foreign, alive_duration, now);
    lemma_merge_stays_distinct(local, foreign, alive_duration, now);
    lemma_distinct_first(x, k);
    if knows(local.peers, f.id) {
        lemma_known_has_first(local.peers, f.id);
        let i = first_with_id(local.peers, f.id);
        lemma_merge_known_entry(local, foreign, alive_duration, now, i);
        if knows(once.peers, f.id) {
            lemma_known_has_first(once.peers, f.id);
            let j = first_with_id(once.peers, f.id);
            lemma_merge_known_entry(once, foreign, alive_duration, now, j);
        } else {
            lemma_merge_new_entry(once, foreign, alive_duration, now, k);
        }
    } else {
        lemma_merge_new_entry(local, foreign, alive_duration, now, k);
        lemma_known_has_first(once.peers, f.id);
        let j = first_with_id(once.peers, f.id);
        lemma_merge_known_entry(once, foreign, alive_duration, now, j);
    }
}

/// Where neither view names a peer twice, merging the same message a
/// second time, at the same time, changes nothing exactly when no report of
/// the message is unsettling.
pub proof fn lemma_merge_idempotent_exactly(
    local: NetworkView,
    foreign: NetworkView,
    alive_duration: nat,
    now: nat,
)
    requires
        distinct_ids(local.peers),
        distinct_ids(foreign.peers),
    ensures
        steady(local, foreign, alive_duration, now) <==> merged(
            merged(local, foreign, alive_duration, now),
            foreign,
            alive_duration,
            now,
        ) == merged(local, foreign, alive_duration, now),
{
    if steady(local, foreign, alive_duration, now) {
        lemma_merge_idempotent(local, foreign, alive_duration, now);
    } else {
        let k = choose|k: int|
            0 <= k < foreign.peers.len() && unsettling(
                local,
                #[trigger] foreign.peers[k],
                foreign.sender,
                alive_duration,
                now,
            );
        lemma_merge_unsettled(local, foreign, alive_duration, now, k);
    }
}

} // verus!
