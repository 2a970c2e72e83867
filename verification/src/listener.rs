//! Answering a peer that sent its view.

use vstd::prelude::*;

use crate::common::NetworkState;
use crate::sync::{merge_notices, merged, notice_views, sync_state, Notice};

verus! {

/// Takes in the view `received` from a peer at time `now`: merges it into
/// `local`, and returns the merged view as the answer to send back,
/// together with the payloads taken over.
pub fn respond(
    received: &NetworkState,
    local: &mut NetworkState,
    alive_duration: u64,
    now: u64,
) -> (answer: (NetworkState, Vec<Notice>))
    ensures
        final(local)@ == merged(old(local)@, received@, alive_duration as nat, now as nat),
        answer.0@ == final(local)@,
        notice_views(answer.1@) == merge_notices(
            old(local)@,
            received@,
            alive_duration as nat,
            now as nat,
        ),
{
    let notices = sync_state(received, local, alive_duration, now);
    (local.clone(), notices)
}

} // verus!
