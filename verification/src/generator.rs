//! Drawing random addresses and finding the bucket that each falls in.

use crate::address::NetworkAddress;
use crate::discovery::batch_view;
use crate::metric::{bucket_index, ilog2_distance};
use crate::model::candidates_labelled;
use libp2p::PeerId;
use rayon::iter::{IntoParallelIterator, ParallelIterator};
use vstd::prelude::*;

verus! {

/// Calls libp2p's `PeerId::random` and takes the bytes of the identifier
/// with `PeerId::to_bytes`.
///
/// The identifier is drawn at random, so nothing is claimed of the address.
#[verifier::external_body]
fn random_address() -> (address: NetworkAddress) {
    NetworkAddress::from_bytes(PeerId::random().to_bytes())
}

/// The bucket that `self_address` sees the candidate in.
pub fn ilog2_from(self_address: &NetworkAddress, candidate: &NetworkAddress) -> (ilog2: Option<u32>)
    ensures
        ilog2 == bucket_index(self_address@, candidate@),
{
    ilog2_distance(self_address.bytes(), candidate.bytes())
}

/// Labels an address with the bucket that `self_address` sees it in. An
/// address at distance zero has no bucket and is no candidate.
pub fn label_candidate(self_address: &NetworkAddress, candidate: NetworkAddress) -> (labelled: Option<
    (u32, NetworkAddress),
>)
    ensures
        match bucket_index(self_address@, candidate@) {
            Some(ilog2) => labelled == Some((ilog2, candidate)),
            None => labelled is None,
        },
{
    match ilog2_from(self_address, &candidate) {
        Some(ilog2) => Some((ilog2, candidate)),
        None => None,
    }
}

/// Draws one random address and labels it with its bucket.
fn draw_candidate(self_address: &NetworkAddress) -> (drawn: Option<(u32, NetworkAddress)>)
    ensures
        drawn matches Some((ilog2, candidate)) ==> bucket_index(self_address@, candidate@) == Some(
            ilog2,
        ),
{
    label_candidate(self_address, random_address())
}

/// Calls rayon's `into_par_iter` on the range of attempts, `filter_map` with
/// one draw for each attempt, and `collect` into a vector.
///
/// Trusted: rayon hands back what the draws returned and nothing else, so
/// there are at most as many candidates as attempts, and each carries the
/// bucket that `draw_candidate` found for it. Which addresses are drawn is
/// left open.
#[verifier::external_body]
pub(crate) fn generate_candidates(self_address: &NetworkAddress, num_to_generate: usize) -> (candidates:
    Vec<(u32, NetworkAddress)>)
    ensures
        candidates@.len() <= num_to_generate,
        candidates_labelled(self_address@, batch_view(candidates@)),
{
    (0..num_to_generate).into_par_iter().filter_map(|_| draw_candidate(self_address)).collect::<
        Vec<_>,
    >()
}

} // verus!
