//! The candidate table as a mathematical map, and the three ways in which an
//! address enters it.

use crate::metric::bucket_index;
use vstd::prelude::*;

verus! {

/// The most addresses that a bucket keeps while it is filled with drawn
/// candidates.
pub const MAX_PEERS_PER_BUCKET: usize = 5;

/// The candidate table: for each covered bucket its queue of addresses, the
/// oldest in front. A bucket that no address was ever found for has no entry.
pub type Buckets = Map<u32, Seq<Seq<u8>>>;

/// A drawn or reported address with the bucket it was found to fall in.
pub type Labelled = (u32, Seq<u8>);

/// Adds an address while the table is first filled: a full bucket keeps what
/// it has and the address is dropped.
pub open spec fn insert_dropping(table: Buckets, bucket: u32, address: Seq<u8>) -> Buckets {
    if !table.contains_key(bucket) {
        table.insert(bucket, seq![address])
    } else if table[bucket].len() >= MAX_PEERS_PER_BUCKET {
        table
    } else {
        table.insert(bucket, table[bucket].push(address))
    }
}

/// Adds an address when the table is topped up: a full bucket gives up its
/// oldest address and takes the new one at the back.
pub open spec fn insert_sliding(table: Buckets, bucket: u32, address: Seq<u8>) -> Buckets {
    if !table.contains_key(bucket) {
        table.insert(bucket, seq![address])
    } else if table[bucket].len() >= MAX_PEERS_PER_BUCKET {
        table.insert(bucket, table[bucket].drop_first().push(address))
    } else {
        table.insert(bucket, table[bucket].push(address))
    }
}

/// Adds the address of a peer that a query reported. A peer at distance zero
/// has no bucket and is left out. A full bucket gives up its oldest address
/// unless it already holds the peer; the peer goes to the back either way.
pub open spec fn insert_discovered(
    table: Buckets,
    bucket: Option<u32>,
    address: Seq<u8>,
) -> Buckets {
    match bucket {
        None => table,
        Some(bucket) => {
            if !table.contains_key(bucket) {
                table.insert(bucket, seq![address])
            } else if table[bucket].len() >= MAX_PEERS_PER_BUCKET && !table[bucket].contains(
                address,
            ) {
                table.insert(bucket, table[bucket].drop_first().push(address))
            } else {
                table.insert(bucket, table[bucket].push(address))
            }
        },
    }
}

/// The table after the candidates were added one by one, in order, each
/// dropped where its bucket was full.
pub open spec fn load(table: Buckets, candidates: Seq<Labelled>) -> Buckets
    decreases candidates.len(),
{
    if candidates.len() == 0 {
        table
    } else {
        let (bucket, address) = candidates.last();
        insert_dropping(load(table, candidates.drop_last()), bucket, address)
    }
}

/// The table after the candidates were added one by one, in order, each
/// pushing out the oldest address where its bucket was full.
pub open spec fn refresh(table: Buckets, candidates: Seq<Labelled>) -> Buckets
    decreases candidates.len(),
{
    if candidates.len() == 0 {
        table
    } else {
        let (bucket, address) = candidates.last();
        insert_sliding(refresh(table, candidates.drop_last()), bucket, address)
    }
}

/// The table after the reported peers were added one by one, in order, each
/// under the bucket that it falls in as seen from `local`.
pub open spec fn merge(table: Buckets, local: Seq<u8>, peers: Seq<Seq<u8>>) -> Buckets
    decreases peers.len(),
{
    if peers.len() == 0 {
        table
    } else {
        let peer = peers.last();
        insert_discovered(
            merge(table, local, peers.drop_last()),
            bucket_index(local, peer),
            peer,
        )
    }
}

/// The addresses of the candidates that carry the given bucket, in their
/// order.
pub open spec fn addresses_for(candidates: Seq<Labelled>, bucket: u32) -> Seq<Seq<u8>> {
    candidates.filter(|candidate: Labelled| candidate.0 == bucket).map_values(
        |candidate: Labelled| candidate.1,
    )
}

/// Whether a reported peer finds its bucket full and itself in it: the one
/// way in which a bucket grows past `MAX_PEERS_PER_BUCKET`.
pub open spec fn overfills(table: Buckets, bucket: Option<u32>, address: Seq<u8>) -> bool {
    match bucket {
        None => false,
        Some(bucket) => table.contains_key(bucket) && table[bucket].len()
            >= MAX_PEERS_PER_BUCKET && table[bucket].contains(address),
    }
}

/// Whether, while the reported peers are merged one by one, some peer
/// overfills its bucket.
pub open spec fn merge_overfills(table: Buckets, local: Seq<u8>, peers: Seq<Seq<u8>>) -> bool
    decreases peers.len(),
{
    if peers.len() == 0 {
        false
    } else {
        let peer = peers.last();
        merge_overfills(table, local, peers.drop_last()) || overfills(
            merge(table, local, peers.drop_last()),
            bucket_index(local, peer),
            peer,
        )
    }
}

/// The addresses are the front ones of the table's queues, one for each
/// bucket, the buckets taken in some order.
pub open spec fn fronts_of(table: Buckets, fronts: Seq<Seq<u8>>) -> bool {
    exists|order: Seq<u32>|
        #![trigger order.to_set()]
        order.no_duplicates() && order.to_set() == table.dom() && order.len() == fronts.len()
            && forall|i: int| 0 <= i < order.len() ==> fronts[i] == table[#[trigger] order[i]].first()
}

/// Every bucket of the table holds at least one address.
pub open spec fn nonempty(table: Buckets) -> bool {
    forall|bucket: u32| #[trigger] table.contains_key(bucket) ==> table[bucket].len() > 0
}

/// No bucket of the table holds more than `MAX_PEERS_PER_BUCKET` addresses.
pub open spec fn within_capacity(table: Buckets) -> bool {
    forall|bucket: u32| #[trigger]
        table.contains_key(bucket) ==> table[bucket].len() <= MAX_PEERS_PER_BUCKET
}

/// Every address of the table stands in the bucket that it falls in as seen
/// from `local`.
pub open spec fn labelled(local: Seq<u8>, table: Buckets) -> bool {
    forall|bucket: u32, i: int|
        #![trigger table[bucket][i]]
        table.contains_key(bucket) && 0 <= i < table[bucket].len() ==> bucket_index(
            local,
            table[bucket][i],
        ) == Some(bucket)
}

/// Every candidate carries the bucket that its address falls in as seen from
/// `local`.
pub open spec fn candidates_labelled(local: Seq<u8>, candidates: Seq<Labelled>) -> bool {
    forall|i: int|
        0 <= i < candidates.len() ==> bucket_index(local, (#[trigger] candidates[i]).1) == Some(
            candidates[i].0,
        )
}

} // verus!
