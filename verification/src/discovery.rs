//! The candidate table of a node and the operations that fill and read it.

use crate::address::NetworkAddress;
use crate::generator::{generate_candidates, ilog2_from};
use crate::laws::{
    lemma_insert_discovered_overfilling, lemma_insert_discovered_within_capacity,
    lemma_load_labelled, lemma_load_nonempty, lemma_load_within_capacity, lemma_merge_labelled,
    lemma_merge_nonempty, lemma_merge_within_capacity, lemma_refresh_labelled,
    lemma_refresh_nonempty, lemma_refresh_within_capacity,
};
use crate::model::{
    candidates_labelled, fronts_of, insert_discovered, labelled, load, merge, merge_overfills,
    nonempty, overfills, refresh, within_capacity, Buckets, Labelled,
};
use crate::queues::{insert_or_drop, insert_or_slide, insert_peer, queues_view};
use crate::summary::{ascending, insert_ascending};
use std::collections::HashMap;
use std::collections::VecDeque;
use vstd::prelude::*;

verus! {

/// The number of addresses drawn when a table is made.
pub const INITIAL_GENERATION_ATTEMPTS: usize = 10_000;

/// The number of addresses drawn each time a table is topped up.
pub const GENERATION_ATTEMPTS: usize = 1_000;

/// The candidates of a batch, each address taken by its bytes.
pub open spec fn batch_view(batch: Seq<(u32, NetworkAddress)>) -> Seq<Labelled> {
    Seq::new(batch.len(), |i: int| (batch[i].0, batch[i].1@))
}

/// The addresses that a node may query to fill its routing table, one queue
/// for each bucket that an address was found for.
pub struct NetworkDiscovery {
    self_address: NetworkAddress,
    candidates: HashMap<u32, VecDeque<NetworkAddress>>,
}

impl View for NetworkDiscovery {
    type V = Buckets;

    closed spec fn view(&self) -> Buckets {
        queues_view(self.candidates@)
    }
}

impl NetworkDiscovery {
    /// The identifier of the node that the table belongs to.
    pub closed spec fn local(&self) -> Seq<u8> {
        self.self_address@
    }

    /// No queue of the table is empty: a queue is made with its first
    /// address, and an address leaves only to make room for another.
    #[verifier::type_invariant]
    closed spec fn inv(&self) -> bool {
        nonempty(queues_view(self.candidates@))
    }

    /// A table for the node `self_address`, filled with the random addresses
    /// that `INITIAL_GENERATION_ATTEMPTS` draws gave. The addresses enter in
    /// the order in which they were drawn, and those that find their bucket
    /// full are dropped.
    pub fn new(self_address: &NetworkAddress) -> (discovery: Self)
        ensures
            discovery.local() == self_address@,
            exists|batch: Seq<Labelled>|
                batch.len() <= INITIAL_GENERATION_ATTEMPTS && candidates_labelled(
                    self_address@,
                    batch,
                ) && discovery@ == #[trigger] load(Map::empty(), batch),
            nonempty(discovery@),
            within_capacity(discovery@),
            labelled(self_address@, discovery@),
    {
        let candidates_vec = generate_candidates(self_address, INITIAL_GENERATION_ATTEMPTS);
        Self::with_candidates(self_address.clone(), candidates_vec)
    }

    /// A table for the node `self_address`, filled from an empty one with
    /// the given candidates in their order. A candidate whose bucket already
    /// holds `MAX_PEERS_PER_BUCKET` addresses is dropped.
    pub fn with_candidates(
        self_address: NetworkAddress,
        candidates_vec: Vec<(u32, NetworkAddress)>,
    ) -> (discovery: Self)
        ensures
            discovery.local() == self_address@,
            discovery@ == load(Map::empty(), batch_view(candidates_vec@)),
            nonempty(discovery@),
            within_capacity(discovery@),
            candidates_labelled(self_address@, batch_view(candidates_vec@)) ==> labelled(
                self_address@,
                discovery@,
            ),
    {
        let mut candidates: HashMap<u32, VecDeque<NetworkAddress>> = HashMap::new();
        let ghost batch = batch_view(candidates_vec@);
        assert(queues_view(candidates@) =~= Map::empty());
        for item in it: candidates_vec
            invariant
                it.seq() == candidates_vec@,
                batch == batch_view(candidates_vec@),
                queues_view(candidates@) == load(Map::empty(), batch.take(it.index() as int)),
        {
            let (ilog2, candidate) = item;
            proof {
                let i = it.index() as int;
                assert(batch.take(i + 1).drop_last() =~= batch.take(i));
                assert(batch.take(i + 1).last() == (ilog2, candidate@));
            }
            insert_or_drop(&mut candidates, ilog2, candidate);
        }
        proof {
            assert(batch.take(batch.len() as int) =~= batch);
            lemma_load_nonempty(Map::empty(), batch);
            lemma_load_within_capacity(Map::empty(), batch);
            if candidates_labelled(self_address@, batch) {
                lemma_load_labelled(self_address@, Map::empty(), batch);
            }
        }
        NetworkDiscovery { self_address, candidates }
    }

    /// Tops the table up with the random addresses that
    /// `GENERATION_ATTEMPTS` draws gave. The front of a queue is what a
    /// query uses first, so an address that finds its bucket full pushes
    /// the front one out and goes to the back.
    pub fn try_refresh_candidates(&mut self)
        ensures
            final(self).local() == old(self).local(),
            exists|batch: Seq<Labelled>|
                batch.len() <= GENERATION_ATTEMPTS && candidates_labelled(old(self).local(), batch)
                    && final(self)@ == #[trigger] refresh(old(self)@, batch),
            nonempty(final(self)@),
            within_capacity(old(self)@) ==> within_capacity(final(self)@),
            labelled(old(self).local(), old(self)@) ==> labelled(final(self).local(), final(self)@),
    {
        let candidates_vec = generate_candidates(&self.self_address, GENERATION_ATTEMPTS);
        self.refresh_with(candidates_vec);
    }

    /// Tops the table up with the given candidates in their order. A
    /// candidate whose bucket already holds `MAX_PEERS_PER_BUCKET` addresses
    /// or more pushes the front one out and goes to the back.
    pub fn refresh_with(&mut self, candidates_vec: Vec<(u32, NetworkAddress)>)
        ensures
            final(self).local() == old(self).local(),
            final(self)@ == refresh(old(self)@, batch_view(candidates_vec@)),
            nonempty(final(self)@),
            within_capacity(old(self)@) ==> within_capacity(final(self)@),
            labelled(old(self).local(), old(self)@) && candidates_labelled(
                old(self).local(),
                batch_view(candidates_vec@),
            ) ==> labelled(final(self).local(), final(self)@),
    {
        proof {
            use_type_invariant(&*self);
        }
        let ghost before = self@;
        let ghost batch = batch_view(candidates_vec@);
        let mut queues = self.take_queues();
        for item in it: candidates_vec
            invariant
                it.seq() == candidates_vec@,
                batch == batch_view(candidates_vec@),
                queues_view(queues@) == refresh(before, batch.take(it.index() as int)),
        {
            let (ilog2, candidate) = item;
            proof {
                let i = it.index() as int;
                assert(batch.take(i + 1).drop_last() =~= batch.take(i));
                assert(batch.take(i + 1).last() == (ilog2, candidate@));
            }
            insert_or_slide(&mut queues, ilog2, candidate);
        }
        proof {
            assert(batch.take(batch.len() as int) =~= batch);
            lemma_refresh_nonempty(before, batch);
            if within_capacity(before) {
                lemma_refresh_within_capacity(before, batch);
            }
            if labelled(self.local(), before) && candidates_labelled(self.local(), batch) {
                lemma_refresh_labelled(self.local(), before, batch);
            }
        }
        self.candidates = queues;
    }

    /// One address for each bucket that the table covers: the front of its
    /// queue, which is the next to query. The buckets come in no given
    /// order.
    pub fn candidates(&self) -> (fronts: Vec<&NetworkAddress>)
        ensures
            fronts_of(self@, fronts.deep_view()),
    {
        broadcast use vstd::std_specs::hash::group_hash_axioms;

        proof {
            use_type_invariant(self);
        }
        let mut fronts: Vec<&NetworkAddress> = Vec::new();
        let ghost order: Seq<u32> = Seq::empty();
        for ilog2 in it: self.candidates.keys()
            invariant
                nonempty(self@),
                it.seq().unref().to_set() == self.candidates@.dom(),
                it.seq().no_duplicates(),
                order == it.seq().unref().take(it.index() as int),
                it.index() == it.seq().len() ==> order == it.seq().unref(),
                fronts.len() == it.index(),
                forall|i: int|
                    0 <= i < fronts.len() ==> fronts[i]@ == self@[#[trigger] order[i]].first(),
        {
            let queue = self.candidates.get(ilog2);
            assert(it.seq().unref().to_set().contains(*ilog2));
            match queue {
                Some(queue) => {
                    assert(self@.contains_key(*ilog2));
                    assert(queue.deep_view() == self@[*ilog2]);
                    fronts.push(&queue[0]);
                },
                None => {},
            }
            proof {
                order = order.push(*ilog2);
                let all = it.seq().unref();
                assert(all.take(all.len() as int) =~= all);
            }
        }
        assert(fronts_of(self@, fronts.deep_view())) by {
            assert(order.to_set() == self@.dom());
            assert(order.no_duplicates());
        }
        fronts
    }

    /// Takes in the peers that a query for the closest peers reported, in
    /// their order. Each goes to the back of the queue of the bucket that
    /// it falls in; the node itself, at distance zero, is left out. A queue
    /// that already holds `MAX_PEERS_PER_BUCKET` addresses or more first
    /// gives up its front one, unless it already holds the peer.
    pub fn handle_get_closest_query(&mut self, closest_peers: Vec<NetworkAddress>)
        ensures
            final(self).local() == old(self).local(),
            final(self)@ == merge(old(self)@, old(self).local(), closest_peers.deep_view()),
            nonempty(final(self)@),
            within_capacity(old(self)@) ==> (within_capacity(final(self)@) <==> !merge_overfills(
                old(self)@,
                old(self).local(),
                closest_peers.deep_view(),
            )),
            labelled(old(self).local(), old(self)@) ==> labelled(final(self).local(), final(self)@),
    {
        proof {
            use_type_invariant(&*self);
        }
        let ghost before = self@;
        let ghost local = self.local();
        let ghost peers = closest_peers.deep_view();
        let mut queues = self.take_queues();
        for peer in it: closest_peers
            invariant
                it.seq() == closest_peers@,
                peers == closest_peers.deep_view(),
                self.self_address == old(self).self_address,
                local == self.self_address@,
                queues_view(queues@) == merge(before, local, peers.take(it.index() as int)),
        {
            proof {
                let i = it.index() as int;
                assert(peers.take(i + 1).drop_last() =~= peers.take(i));
                assert(peers.take(i + 1).last() == peer@);
            }
            if let Some(ilog2_distance) = ilog2_from(&self.self_address, &peer) {
                insert_peer(&mut queues, ilog2_distance, peer);
            }
        }
        proof {
            assert(peers.take(peers.len() as int) =~= peers);
            lemma_merge_nonempty(before, local, peers);
            if within_capacity(before) {
                lemma_merge_within_capacity(before, local, peers);
            }
            if labelled(local, before) {
                lemma_merge_labelled(before, local, peers);
            }
        }
        self.candidates = queues;
    }

    /// The address of the node that the table belongs to.
    pub fn self_address(&self) -> (address: &NetworkAddress)
        ensures
            address@ == self.local(),
    {
        &self.self_address
    }

    /// The queue of a bucket, front first, or `None` for a bucket that the
    /// table does not cover.
    pub fn bucket(&self, ilog2: u32) -> (queue: Option<Vec<NetworkAddress>>)
        ensures
            match queue {
                Some(addresses) => self@.contains_key(ilog2) && addresses.deep_view()
                    == self@[ilog2],
                None => !self@.contains_key(ilog2),
            },
    {
        broadcast use vstd::std_specs::hash::group_hash_axioms;

        match self.candidates.get(&ilog2) {
            Some(queue) => {
                let mut addresses: Vec<NetworkAddress> = Vec::new();
                let mut i: usize = 0;
                while i < queue.len()
                    invariant
                        i <= queue.len(),
                        addresses.len() == i,
                        forall|j: int| 0 <= j < i ==> addresses[j]@ == queue@[j]@,
                    decreases queue.len() - i,
                {
                    addresses.push(queue[i].clone());
                    i += 1;
                }
                assert(addresses.deep_view() =~= queue.deep_view());
                Some(addresses)
            },
            None => None,
        }
    }

    /// The buckets that the table covers, in ascending order, each with the
    /// number of addresses in its queue.
    pub fn buckets_covered(&self) -> (covered: Vec<(u32, usize)>)
        ensures
            ascending(covered@),
            covered.len() == self@.dom().len(),
            forall|ilog2: u32, count: usize|
                #[trigger] covered@.contains((ilog2, count)) <==> self@.contains_key(ilog2)
                    && self@[ilog2].len() == count,
    {
        broadcast use vstd::std_specs::hash::group_hash_axioms;

        let mut covered: Vec<(u32, usize)> = Vec::new();
        let ghost order: Seq<u32> = Seq::empty();
        assert(self@.dom() =~= self.candidates@.dom());
        for ilog2 in it: self.candidates.keys()
            invariant
                it.seq().unref().to_set() == self.candidates@.dom(),
                it.seq().no_duplicates(),
                it.seq().len() == self.candidates@.dom().len(),
                order == it.seq().unref().take(it.index() as int),
                it.index() == it.seq().len() ==> order == it.seq().unref(),
                covered.len() == it.index(),
                ascending(covered@),
                forall|b: u32, count: usize|
                    #[trigger] covered@.contains((b, count)) <==> order.contains(b)
                        && self@.contains_key(b) && self@[b].len() == count,
        {
            assert(it.seq().unref().to_set().contains(*ilog2));
            let count = match self.candidates.get(ilog2) {
                Some(queue) => queue.len(),
                None => 0,
            };
            assert(self@.contains_key(*ilog2) && self@[*ilog2].len() == count);
            proof {
                assert forall|i: int| 0 <= i < covered.len() implies (#[trigger] covered[i]).0
                    != *ilog2 by {
                    assert(covered@.contains((covered[i].0, covered[i].1)));
                    let k = choose|k: int| 0 <= k < order.len() && order[k] == covered[i].0;
                    assert(it.seq()[k] != it.seq()[it.index() as int]);
                }
            }
            let ghost before = covered@;
            insert_ascending(&mut covered, (*ilog2, count));
            proof {
                let all = it.seq().unref();
                let longer = order.push(*ilog2);
                assert(all.take(all.len() as int) =~= all);
                assert(longer =~= all.take(it.index() + 1));
                assert forall|b: u32, n: usize| #[trigger]
                    covered@.contains((b, n)) <==> longer.contains(b) && self@.contains_key(b)
                        && self@[b].len() == n by {
                    if b == *ilog2 {
                        assert(longer[order.len() as int] == b);
                    } else if order.contains(b) {
                        let k = choose|k: int| 0 <= k < order.len() && order[k] == b;
                        assert(longer[k] == b);
                    } else if longer.contains(b) {
                        let k = choose|k: int| 0 <= k < longer.len() && longer[k] == b;
                        assert(order[k] == b);
                    }
                }
                order = longer;
            }
        }
        assert forall|ilog2: u32, count: usize| #[trigger]
            covered@.contains((ilog2, count)) <==> self@.contains_key(ilog2) && self@[ilog2].len()
                == count by {
            assert(order.to_set().contains(ilog2) <==> self@.contains_key(ilog2));
        }
        covered
    }

    /// Takes in one reported peer under the bucket given for it; a peer
    /// without a bucket is left out.
    pub fn insert_discovered_peer(&mut self, ilog2_distance: Option<u32>, peer: NetworkAddress)
        ensures
            final(self).local() == old(self).local(),
            final(self)@ == insert_discovered(old(self)@, ilog2_distance, peer@),
            nonempty(final(self)@),
            within_capacity(old(self)@) ==> (within_capacity(final(self)@) <==> !overfills(
                old(self)@,
                ilog2_distance,
                peer@,
            )),
    {
        proof {
            use_type_invariant(&*self);
            if within_capacity(self@) {
                if overfills(self@, ilog2_distance, peer@) {
                    lemma_insert_discovered_overfilling(self@, ilog2_distance, peer@);
                } else {
                    lemma_insert_discovered_within_capacity(self@, ilog2_distance, peer@);
                }
            }
        }
        if let Some(ilog2_distance) = ilog2_distance {
            let mut queues = self.take_queues();
            insert_peer(&mut queues, ilog2_distance, peer);
            self.candidates = queues;
        }
    }

    /// Takes the queues out of the table, which is left without any until
    /// they are put back: the queues change in the caller's hands, and the
    /// table is never seen with a queue that is half changed.
    fn take_queues(&mut self) -> (queues: HashMap<u32, VecDeque<NetworkAddress>>)
        ensures
            queues == old(self).candidates,
            final(self).self_address == old(self).self_address,
            final(self).candidates@ == Map::<u32, VecDeque<NetworkAddress>>::empty(),
    {
        let mut queues: HashMap<u32, VecDeque<NetworkAddress>> = HashMap::new();
        core::mem::swap(&mut self.candidates, &mut queues);
        queues
    }
}

} // verus!
