//! Ids in ascending order.

use std::collections::HashMap;
use vstd::prelude::*;

verus! {

/// Each id is lower than the next.
pub open spec fn strictly_ascending(ids: Seq<u64>) -> bool {
    forall|i: int, j: int| #![trigger ids[i], ids[j]] 0 <= i < j < ids.len() ==> ids[i] < ids[j]
}

/// The sequence holds the ids of the set and no others.
pub open spec fn lists(ids: Seq<u64>, set: Set<u64>) -> bool {
    forall|id: u64| #[trigger] ids.contains(id) <==> set.contains(id)
}

/// The sequence holds the given ids, each as often as they hold it, from the lowest
/// to the highest.
pub open spec fn sorts(ids: Seq<u64>, given: Seq<u64>) -> bool {
    &&& ids.to_multiset() == given.to_multiset()
    &&& forall|i: int, j: int|
        #![trigger ids[i], ids[j]]
        0 <= i < j < ids.len() ==> ids[i] <= ids[j]
}

/// The lowest id of a set.
#[verifier::opaque]
pub open spec fn lowest(set: Set<u64>) -> u64 {
    choose|id: u64|
        set.contains(id) && forall|other: u64| #[trigger] set.contains(other) ==> id <= other
}

/// The ids of a set from the lowest to the highest.
#[verifier::opaque]
pub open spec fn ascending(set: Set<u64>) -> Seq<u64>
    decreases set.len(),
    when set.finite()
{
    if set.len() == 0 || !set.contains(lowest(set)) {
        Seq::empty()
    } else {
        seq![lowest(set)] + ascending(set.remove(lowest(set)))
    }
}

/// A finite set that is not empty has a lowest id.
proof fn lemma_lowest(set: Set<u64>)
    requires
        set.finite(),
        set.len() > 0,
    ensures
        set.contains(lowest(set)),
        forall|other: u64| #[trigger] set.contains(other) ==> lowest(set) <= other,
    decreases set.len(),
{
    reveal(lowest);
    let first = set.choose();
    let rest = set.remove(first);
    let low = if rest.len() == 0 {
        assert forall|other: u64| #[trigger] set.contains(other) implies first <= other by {
            if other != first {
                assert(rest.contains(other));
            }
        }
        first
    } else {
        lemma_lowest(rest);
        let l = lowest(rest);
        if l < first {
            l
        } else {
            first
        }
    };
    assert forall|other: u64| #[trigger] set.contains(other) implies low <= other by {
        if other != first {
            assert(rest.contains(other));
        }
    }
    assert(set.contains(low));
}

/// The ascending ids of a set are exactly its ids, each once.
pub proof fn lemma_ascending(set: Set<u64>)
    requires
        set.finite(),
    ensures
        strictly_ascending(ascending(set)),
        lists(ascending(set), set),
        ascending(set).len() == set.len(),
    decreases set.len(),
{
    reveal(ascending);
    if set.len() > 0 {
        lemma_lowest(set);
        let low = lowest(set);
        let rest = set.remove(low);
        lemma_ascending(rest);
        let tail = ascending(rest);
        let all = ascending(set);
        assert(all == seq![low] + tail);
        assert forall|i: int, j: int|
            #![trigger all[i], all[j]]
            0 <= i < j < all.len() implies all[i] < all[j] by {
            assert(all[j] == tail[j - 1]);
            assert(tail.contains(tail[j - 1]));
            assert(rest.contains(tail[j - 1]));
            if i > 0 {
                assert(all[i] == tail[i - 1]);
            }
        }
        assert forall|id: u64| #[trigger] all.contains(id) <==> set.contains(id) by {
            if set.contains(id) {
                if id == low {
                    assert(all[0] == id);
                } else {
                    assert(tail.contains(id));
                    let i = choose|i: int| 0 <= i < tail.len() && tail[i] == id;
                    assert(all[i + 1] == id);
                }
            }
            if all.contains(id) {
                let i = choose|i: int| 0 <= i < all.len() && all[i] == id;
                if i > 0 {
                    assert(tail[i - 1] == id);
                    assert(tail.contains(id));
                }
            }
        }
    }
}

/// There is only one way to list a set in ascending order.
pub proof fn lemma_ascending_unique(ids: Seq<u64>, set: Set<u64>)
    requires
        set.finite(),
        strictly_ascending(ids),
        lists(ids, set),
    ensures
        ids == ascending(set),
    decreases ids.len(),
{
    reveal(ascending);
    if ids.len() == 0 {
        if set.len() > 0 {
            lemma_lowest(set);
            assert(ids.contains(lowest(set)));
        }
    } else {
        let first = ids[0];
        let tail = ids.skip(1);
        assert(ids.contains(first));
        assert(set.len() > 0);
        lemma_lowest(set);
        assert(ids.contains(lowest(set)));
        let at = choose|i: int| 0 <= i < ids.len() && ids[i] == lowest(set);
        assert(lowest(set) == first);
        let rest = set.remove(first);
        assert forall|i: int, j: int|
            #![trigger tail[i], tail[j]]
            0 <= i < j < tail.len() implies tail[i] < tail[j] by {
            assert(ids[i + 1] < ids[j + 1]);
        }
        assert forall|id: u64| #[trigger] tail.contains(id) <==> rest.contains(id) by {
            if tail.contains(id) {
                let i = choose|i: int| 0 <= i < tail.len() && tail[i] == id;
                assert(ids[i + 1] == id);
                assert(ids.contains(id));
                assert(ids[0] < ids[i + 1]);
            }
            if rest.contains(id) {
                assert(ids.contains(id));
                let i = choose|i: int| 0 <= i < ids.len() && ids[i] == id;
                assert(tail[i - 1] == id);
            }
        }
        lemma_ascending_unique(tail, rest);
        assert(ids =~= seq![first] + tail);
    }
}

/// Calls `sort_unstable`, which sorts a slice in ascending order and keeps its
/// elements.
#[verifier::external_body]
pub(crate) fn sort_unstable(ids: &mut Vec<u64>)
    ensures
        sorts(final(ids)@, old(ids)@),
{
    ids.sort_unstable();
}

/// Sorts ids that are all different.
fn sort_ids(ids: &mut Vec<u64>)
    requires
        old(ids)@.no_duplicates(),
    ensures
        strictly_ascending(final(ids)@),
        forall|id: u64| #[trigger] final(ids)@.contains(id) <==> old(ids)@.contains(id),
        final(ids)@.len() == old(ids)@.len(),
{
    sort_unstable(ids);
    proof {
        let before = old(ids)@;
        let after = ids@;
        broadcast use vstd::seq_lib::group_to_multiset_ensures;

        before.lemma_multiset_has_no_duplicates();
        assert(after.len() == after.to_multiset().len());
        assert(before.len() == before.to_multiset().len());
        after.lemma_multiset_has_no_duplicates_conv();
        assert forall|id: u64| #[trigger] after.contains(id) <==> before.contains(id) by {
            assert(after.contains(id) <==> after.to_multiset().count(id) > 0);
            assert(before.contains(id) <==> before.to_multiset().count(id) > 0);
        }
    }
}

/// The keys of a map in ascending order.
pub fn sorted_keys<V>(map: &HashMap<u64, V>) -> (ids: Vec<u64>)
    ensures
        map@.dom().finite(),
        ids@ == ascending(map@.dom()),
        strictly_ascending(ids@),
        lists(ids@, map@.dom()),
{
    let mut ids: Vec<u64> = Vec::new();
    for key in iter: map.keys()
        invariant
            ids@.len() == iter.index(),
            forall|i: int| 0 <= i < ids@.len() ==> ids@[i] == *iter.seq()[i],
    {
        ids.push(*key);
    }
    proof {
        let keys = vstd::std_specs::iter::IteratorSpec::remaining(&map.keys()).unref();
        assert(ids@ =~= keys);
        assert(keys.to_set() == map@.dom());
        assert forall|id: u64| #[trigger] ids@.contains(id) <==> map@.dom().contains(id) by {
            assert(keys.to_set().contains(id) <==> keys.contains(id));
        }
    }
    sort_ids(&mut ids);
    proof {
        lemma_ascending_unique(ids@, map@.dom());
    }
    ids
}

} // verus!
