//! The queues of the candidate table, and the three ways in which an address
//! enters the queue of its bucket.

use crate::address::NetworkAddress;
use crate::model::{
    insert_discovered, insert_dropping, insert_sliding, Buckets, MAX_PEERS_PER_BUCKET,
};
use std::collections::hash_map::Entry;
use std::collections::HashMap;
use std::collections::VecDeque;
use vstd::prelude::*;

verus! {

/// The queues of a table of addresses, each address taken by its bytes.
pub open spec fn queues_view(queues: Map<u32, VecDeque<NetworkAddress>>) -> Buckets {
    Map::new(
        |bucket: u32| queues.contains_key(bucket),
        |bucket: u32| queues[bucket].deep_view(),
    )
}

/// A queue that holds one address.
fn single(address: NetworkAddress) -> (queue: VecDeque<NetworkAddress>)
    ensures
        queue.deep_view() == seq![address@],
{
    let mut queue = VecDeque::new();
    queue.push_back(address);
    assert(queue.deep_view() =~= seq![address@]);
    queue
}

/// Adds a candidate to the queue of its bucket, and drops it where the queue
/// is full.
pub(crate) fn insert_or_drop(
    queues: &mut HashMap<u32, VecDeque<NetworkAddress>>,
    ilog2: u32,
    candidate: NetworkAddress,
)
    ensures
        queues_view(final(queues)@) == insert_dropping(queues_view(old(queues)@), ilog2, candidate@),
{
    broadcast use vstd::std_specs::hash::group_hash_axioms;

    let ghost before = queues_view(queues@);
    let ghost old_queues = queues@;
    let ghost added = candidate;
    match queues.entry(ilog2) {
        Entry::Occupied(mut entry) => {
            let entry = entry.get_mut();
            if entry.len() >= MAX_PEERS_PER_BUCKET {
            } else {
                entry.push_back(candidate);
            }
        },
        Entry::Vacant(entry) => {
            let _ = entry.insert(single(candidate));
        },
    }
    assert(queues@.dom() =~= old_queues.dom().insert(ilog2));
    proof {
        if old_queues.contains_key(ilog2) {
            if old_queues[ilog2]@.len() >= MAX_PEERS_PER_BUCKET {
                assert(queues@[ilog2] == old_queues[ilog2]);
            } else {
                assert(queues@[ilog2]@ == old_queues[ilog2]@.push(added));
                assert(queues@[ilog2].deep_view() =~= old_queues[ilog2].deep_view().push(added@));
            }
        } else {
            assert(queues@[ilog2].deep_view() == seq![added@]);
        }
    }
    assert(queues_view(queues@) =~= insert_dropping(before, ilog2, added@));
}

/// Adds a candidate to the queue of its bucket. A full queue first gives up
/// its front address.
pub(crate) fn insert_or_slide(
    queues: &mut HashMap<u32, VecDeque<NetworkAddress>>,
    ilog2: u32,
    candidate: NetworkAddress,
)
    ensures
        queues_view(final(queues)@) == insert_sliding(queues_view(old(queues)@), ilog2, candidate@),
{
    broadcast use vstd::std_specs::hash::group_hash_axioms;

    let ghost before = queues_view(queues@);
    let ghost old_queues = queues@;
    let ghost added = candidate;
    match queues.entry(ilog2) {
        Entry::Occupied(mut entry) => {
            let entry = entry.get_mut();
            if entry.len() >= MAX_PEERS_PER_BUCKET {
                let _ = entry.pop_front();
                entry.push_back(candidate);
            } else {
                entry.push_back(candidate);
            }
        },
        Entry::Vacant(entry) => {
            let _ = entry.insert(single(candidate));
        },
    }
    assert(queues@.dom() =~= old_queues.dom().insert(ilog2));
    proof {
        if old_queues.contains_key(ilog2) {
            if old_queues[ilog2]@.len() >= MAX_PEERS_PER_BUCKET {
                assert(queues@[ilog2]@ == old_queues[ilog2]@.drop_first().push(added));
                assert(queues@[ilog2].deep_view() =~= old_queues[ilog2].deep_view().drop_first().push(
                    added@,
                ));
            } else {
                assert(queues@[ilog2]@ == old_queues[ilog2]@.push(added));
                assert(queues@[ilog2].deep_view() =~= old_queues[ilog2].deep_view().push(added@));
            }
        } else {
            assert(queues@[ilog2].deep_view() == seq![added@]);
        }
    }
    assert(queues_view(queues@) =~= insert_sliding(before, ilog2, added@));
}

/// Whether a queue holds the address of a peer.
fn queue_contains(queue: &VecDeque<NetworkAddress>, peer: &NetworkAddress) -> (found: bool)
    ensures
        found == queue.deep_view().contains(peer@),
{
    let mut i: usize = 0;
    while i < queue.len()
        invariant
            i <= queue.len(),
            forall|j: int| 0 <= j < i ==> queue.deep_view()[j] != peer@,
        decreases queue.len() - i,
    {
        if queue[i] == *peer {
            assert(queue.deep_view()[i as int] == peer@);
            return true;
        }
        i += 1;
    }
    false
}

/// Adds a reported peer to the queue of its bucket. A full queue first gives
/// up its front address, unless it already holds the peer.
pub(crate) fn insert_peer(
    queues: &mut HashMap<u32, VecDeque<NetworkAddress>>,
    ilog2_distance: u32,
    peer: NetworkAddress,
)
    ensures
        queues_view(final(queues)@) == insert_discovered(
            queues_view(old(queues)@),
            Some(ilog2_distance),
            peer@,
        ),
{
    broadcast use vstd::std_specs::hash::group_hash_axioms;

    let ghost before = queues_view(queues@);
    let ghost old_queues = queues@;
    let ghost added = peer;
    match queues.entry(ilog2_distance) {
        Entry::Occupied(mut entry) => {
            let entry = entry.get_mut();
            if entry.len() >= MAX_PEERS_PER_BUCKET && !queue_contains(entry, &peer) {
                let _ = entry.pop_front();
                entry.push_back(peer);
            } else {
                entry.push_back(peer);
            }
        },
        Entry::Vacant(entry) => {
            let _ = entry.insert(single(peer));
        },
    }
    assert(queues@.dom() =~= old_queues.dom().insert(ilog2_distance));
    proof {
        if old_queues.contains_key(ilog2_distance) {
            let queue = old_queues[ilog2_distance];
            if queue@.len() >= MAX_PEERS_PER_BUCKET && !queue.deep_view().contains(added@) {
                assert(queues@[ilog2_distance]@ == queue@.drop_first().push(added));
                assert(queues@[ilog2_distance].deep_view() =~= queue.deep_view().drop_first().push(
                    added@,
                ));
            } else {
                assert(queues@[ilog2_distance]@ == queue@.push(added));
                assert(queues@[ilog2_distance].deep_view() =~= queue.deep_view().push(added@));
            }
        } else {
            assert(queues@[ilog2_distance].deep_view() == seq![added@]);
        }
    }
    assert(queues_view(queues@) =~= insert_discovered(before, Some(ilog2_distance), added@));
}

} // verus!
