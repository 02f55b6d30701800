//! What holds of the candidate table whichever way it was filled.

use crate::metric::{
    be_value, bucket_index, distance, floor_log2, ilog2, kbucket_key, xor_bytes,
};
use crate::model::{
    addresses_for, candidates_labelled, insert_discovered, insert_dropping, insert_sliding,
    labelled, load, merge, merge_overfills, nonempty, overfills, refresh, within_capacity,
    Buckets, Labelled, MAX_PEERS_PER_BUCKET,
};
use vstd::arithmetic::power2::{
    lemma2_to64, lemma_pow2_adds, lemma_pow2_strictly_increases, lemma_pow2_unfold, pow2,
};
use vstd::prelude::*;

verus! {

/// A byte string of zeros writes the number zero.
pub proof fn lemma_be_value_of_zeros(bytes: Seq<u8>)
    requires
        forall|i: int| 0 <= i < bytes.len() ==> bytes[i] == 0,
    ensures
        be_value(bytes) == 0,
    decreases bytes.len(),
{
    if bytes.len() > 0 {
        lemma_be_value_of_zeros(bytes.drop_last());
    }
}

/// A key is at distance zero from itself.
pub proof fn lemma_distance_to_self(key: Seq<u8>)
    ensures
        distance(key, key) == 0,
{
    let xored = xor_bytes(key, key);
    assert forall|i: int| 0 <= i < xored.len() implies xored[i] == 0 by {
        let byte = key[i];
        assert(byte ^ byte == 0) by (bit_vector);
    }
    lemma_be_value_of_zeros(xored);
}

/// A byte string that writes the number zero holds only zeros.
pub proof fn lemma_be_value_zero_means_zeros(bytes: Seq<u8>)
    requires
        be_value(bytes) == 0,
    ensures
        forall|i: int| 0 <= i < bytes.len() ==> bytes[i] == 0,
    decreases bytes.len(),
{
    if bytes.len() > 0 {
        lemma_be_value_zero_means_zeros(bytes.drop_last());
        assert forall|i: int| 0 <= i < bytes.len() implies bytes[i] == 0 by {
            if i < bytes.len() - 1 {
                assert(bytes[i] == bytes.drop_last()[i]);
            }
        }
    }
}

/// The distance does not depend on the side from which it is taken.
pub proof fn lemma_distance_symmetric(a: Seq<u8>, b: Seq<u8>)
    requires
        a.len() == b.len(),
    ensures
        distance(a, b) == distance(b, a),
{
    assert forall|i: int| 0 <= i < a.len() implies xor_bytes(a, b)[i] == xor_bytes(b, a)[i] by {
        let x = a[i];
        let y = b[i];
        assert(x ^ y == y ^ x) by (bit_vector);
    }
    assert(xor_bytes(a, b) =~= xor_bytes(b, a));
}

/// Two keys of one length are at distance zero exactly when they are the
/// same key.
pub proof fn lemma_distance_zero_iff_same_key(a: Seq<u8>, b: Seq<u8>)
    requires
        a.len() == b.len(),
    ensures
        distance(a, b) == 0 <==> a == b,
{
    if a == b {
        lemma_distance_to_self(a);
    }
    if distance(a, b) == 0 {
        lemma_be_value_zero_means_zeros(xor_bytes(a, b));
        assert forall|i: int| 0 <= i < a.len() implies a[i] == b[i] by {
            let x = a[i];
            let y = b[i];
            assert(xor_bytes(a, b)[i] == 0);
            assert(x ^ y == 0 ==> x == y) by (bit_vector);
        }
        assert(a =~= b);
    }
}

/// `floor_log2` is the whole part of the base 2 logarithm: the number lies
/// between that power of two and the next.
pub proof fn lemma_floor_log2_bounds(n: nat)
    requires
        n > 0,
    ensures
        pow2(floor_log2(n)) <= n < pow2(floor_log2(n) + 1),
    decreases n,
{
    lemma2_to64();
    if n > 1 {
        lemma_floor_log2_bounds(n / 2);
        lemma_pow2_unfold(floor_log2(n));
        lemma_pow2_unfold(floor_log2(n) + 1);
    }
}

/// A string of `n` bytes writes a number below two to the power of `8 * n`.
pub proof fn lemma_be_value_below_width(bytes: Seq<u8>)
    ensures
        be_value(bytes) < pow2(8 * bytes.len()),
    decreases bytes.len(),
{
    lemma2_to64();
    if bytes.len() > 0 {
        let rest = bytes.drop_last();
        lemma_be_value_below_width(rest);
        lemma_pow2_adds(8 * rest.len(), 8);
        assert(be_value(bytes) < pow2(8 * rest.len()) * 256) by (nonlinear_arith)
            requires
                be_value(bytes) == be_value(rest) * 256 + bytes.last() as nat,
                be_value(rest) < pow2(8 * rest.len()),
                bytes.last() < 256,
        ;
    }
}

/// The bucket of two keys of `n` bytes is the whole part of the base 2
/// logarithm of their distance, and lies below `8 * n`. For keys of 32
/// bytes there are the buckets 0 to 255.
pub proof fn lemma_bucket_below_width(a: Seq<u8>, b: Seq<u8>)
    requires
        a.len() == b.len(),
        8 * a.len() <= u32::MAX,
    ensures
        ilog2(distance(a, b)) matches Some(bucket) ==> bucket == floor_log2(distance(a, b))
            && bucket < 8 * a.len(),
{
    let d = distance(a, b);
    if d > 0 {
        lemma_be_value_below_width(xor_bytes(a, b));
        lemma_floor_log2_bounds(d);
        if floor_log2(d) >= 8 * a.len() {
            if floor_log2(d) > 8 * a.len() {
                lemma_pow2_strictly_increases(8 * a.len(), floor_log2(d));
            }
        }
    }
}

/// An identifier falls in no bucket of its own table.
pub proof fn lemma_no_bucket_for_self(local: Seq<u8>)
    ensures
        bucket_index(local, local) is None,
{
    lemma_distance_to_self(kbucket_key(local));
}

/// Filling a table leaves no bucket empty.
pub proof fn lemma_load_nonempty(table: Buckets, candidates: Seq<Labelled>)
    requires
        nonempty(table),
    ensures
        nonempty(load(table, candidates)),
    decreases candidates.len(),
{
    if candidates.len() > 0 {
        lemma_load_nonempty(table, candidates.drop_last());
    }
}

/// Filling a table never takes a bucket over its capacity.
pub proof fn lemma_load_within_capacity(table: Buckets, candidates: Seq<Labelled>)
    requires
        within_capacity(table),
    ensures
        within_capacity(load(table, candidates)),
    decreases candidates.len(),
{
    if candidates.len() > 0 {
        lemma_load_within_capacity(table, candidates.drop_last());
    }
}

/// Filling a table with candidates that carry their own bucket keeps every
/// address in the bucket that it falls in.
pub proof fn lemma_load_labelled(local: Seq<u8>, table: Buckets, candidates: Seq<Labelled>)
    requires
        labelled(local, table),
        candidates_labelled(local, candidates),
    ensures
        labelled(local, load(table, candidates)),
    decreases candidates.len(),
{
    if candidates.len() > 0 {
        let rest = candidates.drop_last();
        assert forall|i: int| 0 <= i < rest.len() implies bucket_index(
            local,
            (#[trigger] rest[i]).1,
        ) == Some(rest[i].0) by {
            assert(rest[i] == candidates[i]);
        }
        lemma_load_labelled(local, table, rest);
        let (bucket, address) = candidates.last();
        assert(candidates[candidates.len() - 1] == (bucket, address));
        lemma_insert_dropping_labelled(local, load(table, rest), bucket, address);
    }
}

/// Adding an address under the bucket that it falls in keeps a table
/// labelled, under the policy of the first filling.
pub proof fn lemma_insert_dropping_labelled(
    local: Seq<u8>,
    table: Buckets,
    bucket: u32,
    address: Seq<u8>,
)
    requires
        labelled(local, table),
        bucket_index(local, address) == Some(bucket),
    ensures
        labelled(local, insert_dropping(table, bucket, address)),
{
    let after = insert_dropping(table, bucket, address);
    assert forall|b: u32, i: int|
        after.contains_key(b) && 0 <= i < after[b].len() implies bucket_index(
        local,
        #[trigger] after[b][i],
    ) == Some(b) by {
        if b == bucket && table.contains_key(bucket) && i < table[bucket].len() {
            assert(after[b][i] == table[b][i]);
        } else if b != bucket {
            assert(after[b][i] == table[b][i]);
        }
    }
}

/// Topping a table up leaves no bucket empty.
pub proof fn lemma_refresh_nonempty(table: Buckets, candidates: Seq<Labelled>)
    requires
        nonempty(table),
    ensures
        nonempty(refresh(table, candidates)),
    decreases candidates.len(),
{
    if candidates.len() > 0 {
        lemma_refresh_nonempty(table, candidates.drop_last());
    }
}

/// Topping a table up never takes a bucket over its capacity.
pub proof fn lemma_refresh_within_capacity(table: Buckets, candidates: Seq<Labelled>)
    requires
        within_capacity(table),
    ensures
        within_capacity(refresh(table, candidates)),
    decreases candidates.len(),
{
    if candidates.len() > 0 {
        lemma_refresh_within_capacity(table, candidates.drop_last());
    }
}

/// Adding an address under the bucket that it falls in keeps a table
/// labelled, under the policy of a top-up.
pub proof fn lemma_insert_sliding_labelled(
    local: Seq<u8>,
    table: Buckets,
    bucket: u32,
    address: Seq<u8>,
)
    requires
        labelled(local, table),
        bucket_index(local, address) == Some(bucket),
    ensures
        labelled(local, insert_sliding(table, bucket, address)),
{
    let after = insert_sliding(table, bucket, address);
    assert forall|b: u32, i: int|
        after.contains_key(b) && 0 <= i < after[b].len() implies bucket_index(
        local,
        #[trigger] after[b][i],
    ) == Some(b) by {
        if b != bucket {
            assert(after[b][i] == table[b][i]);
        } else if table.contains_key(bucket) && i < after[b].len() - 1 {
            if table[bucket].len() >= MAX_PEERS_PER_BUCKET {
                assert(after[b][i] == table[b][i + 1]);
            } else {
                assert(after[b][i] == table[b][i]);
            }
        }
    }
}

/// Topping a table up with candidates that carry their own bucket keeps
/// every address in the bucket that it falls in.
pub proof fn lemma_refresh_labelled(local: Seq<u8>, table: Buckets, candidates: Seq<Labelled>)
    requires
        labelled(local, table),
        candidates_labelled(local, candidates),
    ensures
        labelled(local, refresh(table, candidates)),
    decreases candidates.len(),
{
    if candidates.len() > 0 {
        let rest = candidates.drop_last();
        assert forall|i: int| 0 <= i < rest.len() implies bucket_index(
            local,
            (#[trigger] rest[i]).1,
        ) == Some(rest[i].0) by {
            assert(rest[i] == candidates[i]);
        }
        lemma_refresh_labelled(local, table, rest);
        let (bucket, address) = candidates.last();
        assert(candidates[candidates.len() - 1] == (bucket, address));
        lemma_insert_sliding_labelled(local, refresh(table, rest), bucket, address);
    }
}

/// Adding a reported peer under the bucket that it falls in keeps a table
/// labelled, and a peer without a bucket leaves the table as it is.
pub proof fn lemma_insert_discovered_labelled(local: Seq<u8>, table: Buckets, peer: Seq<u8>)
    requires
        labelled(local, table),
    ensures
        labelled(local, insert_discovered(table, bucket_index(local, peer), peer)),
{
    let after = insert_discovered(table, bucket_index(local, peer), peer);
    if let Some(bucket) = bucket_index(local, peer) {
        assert forall|b: u32, i: int|
            after.contains_key(b) && 0 <= i < after[b].len() implies bucket_index(
            local,
            #[trigger] after[b][i],
        ) == Some(b) by {
            if b != bucket {
                assert(after[b][i] == table[b][i]);
            } else if table.contains_key(bucket) && i < after[b].len() - 1 {
                if table[bucket].len() >= MAX_PEERS_PER_BUCKET && !table[bucket].contains(peer) {
                    assert(after[b][i] == table[b][i + 1]);
                } else {
                    assert(after[b][i] == table[b][i]);
                }
            }
        }
    }
}

/// Merging reported peers leaves no bucket empty.
pub proof fn lemma_merge_nonempty(table: Buckets, local: Seq<u8>, peers: Seq<Seq<u8>>)
    requires
        nonempty(table),
    ensures
        nonempty(merge(table, local, peers)),
    decreases peers.len(),
{
    if peers.len() > 0 {
        lemma_merge_nonempty(table, local, peers.drop_last());
    }
}

/// Merging reported peers keeps every address in the bucket that it falls
/// in: a peer is stored under its own bucket, and one at distance zero is
/// not stored.
pub proof fn lemma_merge_labelled(table: Buckets, local: Seq<u8>, peers: Seq<Seq<u8>>)
    requires
        labelled(local, table),
    ensures
        labelled(local, merge(table, local, peers)),
    decreases peers.len(),
{
    if peers.len() > 0 {
        lemma_merge_labelled(table, local, peers.drop_last());
        lemma_insert_discovered_labelled(
            local,
            merge(table, local, peers.drop_last()),
            peers.last(),
        );
    }
}

/// In a labelled table no address is at distance zero from the node, so the
/// node's own identifier stands in no bucket.
pub proof fn lemma_labelled_excludes_distance_zero(local: Seq<u8>, table: Buckets)
    requires
        labelled(local, table),
    ensures
        forall|bucket: u32, i: int|
            #![trigger table[bucket][i]]
            table.contains_key(bucket) && 0 <= i < table[bucket].len() ==> distance(
                kbucket_key(table[bucket][i]),
                kbucket_key(local),
            ) != 0 && table[bucket][i] != local,
{
    lemma_no_bucket_for_self(local);
}

/// A table that was filled from an empty one holds, for each bucket, the
/// first `MAX_PEERS_PER_BUCKET` addresses that came for it, in the order in
/// which they came, and has no entry for a bucket that none came for.
pub proof fn lemma_load_keeps_first(candidates: Seq<Labelled>, bucket: u32)
    ensures
        ({
            let table = load(Map::empty(), candidates);
            let came = addresses_for(candidates, bucket);
            &&& table.contains_key(bucket) <==> came.len() > 0
            &&& table.contains_key(bucket) ==> table[bucket] == if came.len()
                <= MAX_PEERS_PER_BUCKET {
                came
            } else {
                came.take(MAX_PEERS_PER_BUCKET as int)
            }
        }),
    decreases candidates.len(),
{
    reveal(Seq::filter);
    let wanted = |candidate: Labelled| candidate.0 == bucket;
    let address_of = |candidate: Labelled| candidate.1;
    if candidates.len() > 0 {
        let rest = candidates.drop_last();
        lemma_load_keeps_first(rest, bucket);
        let before = load(Map::empty(), rest);
        let came_before = addresses_for(rest, bucket);
        let came = addresses_for(candidates, bucket);
        let (b, address) = candidates.last();
        if b == bucket {
            assert(candidates.filter(wanted) == rest.filter(wanted).push(candidates.last()));
            assert(came =~= came_before.push(address));
            if came_before.len() >= MAX_PEERS_PER_BUCKET {
                assert(came.take(MAX_PEERS_PER_BUCKET as int) =~= came_before.take(
                    MAX_PEERS_PER_BUCKET as int,
                ));
            } else if came_before.len() == 0 {
                assert(came =~= seq![address]);
            }
        } else {
            assert(candidates.filter(wanted) == rest.filter(wanted));
        }
    } else {
        assert(addresses_for(candidates, bucket).len() == 0);
    }
}

/// A candidate that comes for a full bucket during a top-up pushes the
/// front address out: the others move one place forward, the candidate
/// stands at the back, the bucket is as long as before, and no other bucket
/// changes.
pub proof fn lemma_full_bucket_slides(table: Buckets, bucket: u32, address: Seq<u8>)
    requires
        table.contains_key(bucket),
        table[bucket].len() == MAX_PEERS_PER_BUCKET,
    ensures
        ({
            let after = insert_sliding(table, bucket, address);
            &&& after.dom() == table.dom()
            &&& after[bucket].len() == table[bucket].len()
            &&& after[bucket].last() == address
            &&& forall|i: int|
                0 <= i < after[bucket].len() - 1 ==> after[bucket][i] == table[bucket][i + 1]
            &&& forall|other: u32|
                other != bucket && table.contains_key(other) ==> after[other] == table[other]
        }),
{
    let after = insert_sliding(table, bucket, address);
    assert(after.dom() =~= table.dom());
}

/// Merging the node's own identifier changes nothing, however often it is
/// reported.
pub proof fn lemma_merge_of_self_changes_nothing(
    table: Buckets,
    local: Seq<u8>,
    peers: Seq<Seq<u8>>,
)
    requires
        forall|i: int| 0 <= i < peers.len() ==> peers[i] == local,
    ensures
        merge(table, local, peers) == table,
    decreases peers.len(),
{
    if peers.len() > 0 {
        lemma_merge_of_self_changes_nothing(table, local, peers.drop_last());
        lemma_no_bucket_for_self(local);
    }
}

/// A reported peer that does not overfill its bucket leaves every bucket
/// within its capacity.
pub proof fn lemma_insert_discovered_within_capacity(
    table: Buckets,
    bucket: Option<u32>,
    peer: Seq<u8>,
)
    requires
        within_capacity(table),
        !overfills(table, bucket, peer),
    ensures
        within_capacity(insert_discovered(table, bucket, peer)),
{
}

/// A reported peer that overfills its bucket takes it past its capacity.
pub proof fn lemma_insert_discovered_overfilling(
    table: Buckets,
    bucket: Option<u32>,
    peer: Seq<u8>,
)
    requires
        overfills(table, bucket, peer),
    ensures
        !within_capacity(insert_discovered(table, bucket, peer)),
{
    let after = insert_discovered(table, bucket, peer);
    assert(after.contains_key(bucket->0));
}

/// A bucket that is past its capacity stays so, whatever peer is merged.
pub proof fn lemma_insert_discovered_never_shrinks(
    table: Buckets,
    bucket: Option<u32>,
    peer: Seq<u8>,
)
    requires
        !within_capacity(table),
    ensures
        !within_capacity(insert_discovered(table, bucket, peer)),
{
    let after = insert_discovered(table, bucket, peer);
    let over = choose|b: u32| table.contains_key(b) && table[b].len() > MAX_PEERS_PER_BUCKET;
    assert(after.contains_key(over));
    assert(after[over].len() > MAX_PEERS_PER_BUCKET);
}

/// Merging reported peers into a table within its capacity leaves it
/// within its capacity exactly when no peer overfills its bucket on the way.
pub proof fn lemma_merge_within_capacity(table: Buckets, local: Seq<u8>, peers: Seq<Seq<u8>>)
    requires
        within_capacity(table),
    ensures
        within_capacity(merge(table, local, peers)) <==> !merge_overfills(table, local, peers),
    decreases peers.len(),
{
    if peers.len() > 0 {
        let rest = peers.drop_last();
        let before = merge(table, local, rest);
        let bucket = bucket_index(local, peers.last());
        lemma_merge_within_capacity(table, local, rest);
        if merge_overfills(table, local, rest) {
            lemma_insert_discovered_never_shrinks(before, bucket, peers.last());
        } else if overfills(before, bucket, peers.last()) {
            lemma_insert_discovered_overfilling(before, bucket, peers.last());
        } else {
            lemma_insert_discovered_within_capacity(before, bucket, peers.last());
        }
    }
}

} // verus!
