//! The summary of a table: its buckets in ascending order, each with the
//! length of its queue.

use vstd::prelude::*;

verus! {

/// The buckets of a summary come in strictly ascending order.
pub open spec fn ascending(covered: Seq<(u32, usize)>) -> bool {
    forall|i: int, j: int|
        0 <= i < j < covered.len() ==> (#[trigger] covered[i]).0 < (#[trigger] covered[j]).0
}

/// Puts an entry into a summary at the place that its bucket has in the
/// ascending order.
pub(crate) fn insert_ascending(covered: &mut Vec<(u32, usize)>, entry: (u32, usize))
    requires
        ascending(old(covered)@),
        forall|i: int| 0 <= i < old(covered).len() ==> (#[trigger] old(covered)[i]).0 != entry.0,
    ensures
        ascending(final(covered)@),
        final(covered).len() == old(covered).len() + 1,
        forall|other: (u32, usize)|
            #[trigger] final(covered)@.contains(other) <==> old(covered)@.contains(other) || other
                == entry,
{
    let mut at: usize = 0;
    while at < covered.len() && covered[at].0 < entry.0
        invariant
            covered@ == old(covered)@,
            at <= covered.len(),
            forall|i: int| 0 <= i < at ==> (#[trigger] covered[i]).0 < entry.0,
        decreases covered.len() - at,
    {
        at += 1;
    }
    let ghost before = covered@;
    assert forall|i: int| at <= i < before.len() implies (#[trigger] before[i]).0 > entry.0 by {
        assert(before[at as int].0 >= entry.0);
    }
    covered.insert(at, entry);
    proof {
        let after = covered@;
        assert(after == before.insert(at as int, entry));
        assert forall|i: int, j: int| 0 <= i < j < after.len() implies (#[trigger] after[i]).0 < (
        #[trigger] after[j]).0 by {
            let a = if i < at { before[i] } else if i == at { entry } else { before[i - 1] };
            let b = if j < at { before[j] } else if j == at { entry } else { before[j - 1] };
            assert(after[i] == a);
            assert(after[j] == b);
        }
        assert forall|other: (u32, usize)| #[trigger]
            after.contains(other) <==> before.contains(other) || other == entry by {
            if after.contains(other) {
                let i = choose|i: int| 0 <= i < after.len() && after[i] == other;
                if i < at {
                    assert(before[i] == other);
                } else if i > at {
                    assert(before[i - 1] == other);
                }
            }
            if before.contains(other) {
                let i = choose|i: int| 0 <= i < before.len() && before[i] == other;
                if i < at {
                    assert(after[i] == other);
                } else {
                    assert(after[i + 1] == other);
                }
            }
            if other == entry {
                assert(after[at as int] == other);
            }
        }
    }
}

} // verus!
