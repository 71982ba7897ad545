use vstd::multiset::Multiset;
use vstd::prelude::*;

verus! {

/// `s` with the item at `i` replaced by the last item, and the last place
/// dropped: what `Vec::swap_remove` leaves.
pub open spec fn swap_removed<T>(s: Seq<T>, i: int) -> Seq<T> {
    s.update(i, s.last()).drop_last()
}

/// The hit positions are strictly increasing and all within `len`.
pub open spec fn hits_in_order(hits: Seq<usize>, len: nat) -> bool {
    &&& forall|j: int| 0 <= j < hits.len() ==> #[trigger] hits[j] < len
    &&& forall|i: int, j: int| 0 <= i < j < hits.len() ==> #[trigger] hits[i] < #[trigger] hits[j]
}

/// What is left of `s` once the hits are handled from the last to the
/// first, each hit whose `breaks` flag is set being swap-removed.
pub open spec fn without_broken_hits<T>(s: Seq<T>, hits: Seq<usize>, breaks: Seq<bool>) -> Seq<T>
    decreases hits.len(),
{
    if hits.len() == 0 {
        s
    } else {
        let s1 = if breaks[hits.len() - 1] {
            swap_removed(s, hits.last() as int)
        } else {
            s
        };
        without_broken_hits(s1, hits.drop_last(), breaks.drop_last())
    }
}

/// The items of `s` at the hits whose `breaks` flag is set.
pub open spec fn broken_hit_items<T>(s: Seq<T>, hits: Seq<usize>, breaks: Seq<bool>) -> Multiset<T>
    decreases hits.len(),
{
    if hits.len() == 0 {
        Multiset::empty()
    } else {
        let rest = broken_hit_items(s, hits.drop_last(), breaks.drop_last());
        if breaks[hits.len() - 1] {
            rest.insert(s[hits.last() as int])
        } else {
            rest
        }
    }
}

/// Removes the platforms that a bounce broke: `hits` are the positions of
/// the platforms the player landed on, in increasing order, and `breaks[k]`
/// tells whether the platform at `hits[k]` breaks. The hits are handled
/// from the last to the first, each breaking one swap-removed, so every
/// position still to handle is untouched when its turn comes.
pub fn remove_broken_hits<T>(platforms: &mut Vec<T>, hits: &Vec<usize>, breaks: &Vec<bool>)
    requires
        hits_in_order(hits@, old(platforms)@.len()),
        breaks@.len() == hits@.len(),
    ensures
        final(platforms)@ == without_broken_hits(old(platforms)@, hits@, breaks@),
{
    let ghost target = without_broken_hits(platforms@, hits@, breaks@);
    let mut k = hits.len();
    proof {
        assert(hits@.take(k as int) =~= hits@);
        assert(breaks@.take(k as int) =~= breaks@);
    }
    while k > 0
        invariant
            k <= hits@.len(),
            breaks@.len() == hits@.len(),
            hits_in_order(hits@, old(platforms)@.len()),
            forall|j: int| 0 <= j < k ==> #[trigger] hits@[j] < platforms@.len(),
            without_broken_hits(platforms@, hits@.take(k as int), breaks@.take(k as int)) == target,
        decreases k,
    {
        let ghost before = platforms@;
        proof {
            assert(hits@.take(k as int).drop_last() =~= hits@.take(k - 1));
            assert(breaks@.take(k as int).drop_last() =~= breaks@.take(k - 1));
        }
        k = k - 1;
        let hit = hits[k];
        if breaks[k] {
            let _ = platforms.swap_remove(hit);
            proof {
                assert forall|j: int| 0 <= j < k implies #[trigger] hits@[j] < platforms@.len() by {
                    assert(hits@[j] < hits@[k as int]);
                }
            }
        }
    }
    proof {
        assert(hits@.take(0) =~= Seq::<usize>::empty());
    }
}

/// Handling the hits removes exactly the broken items: together with them,
/// what is left holds every item of `s` as often as `s` did.
pub proof fn lemma_broken_hits_are_all_that_is_removed<T>(s: Seq<T>, hits: Seq<usize>, breaks: Seq<bool>)
    requires
        hits_in_order(hits, s.len()),
        breaks.len() == hits.len(),
    ensures
        without_broken_hits(s, hits, breaks).to_multiset().add(broken_hit_items(s, hits, breaks))
            == s.to_multiset(),
        without_broken_hits(s, hits, breaks).len() + broken_hit_items(s, hits, breaks).len() == s.len(),
    decreases hits.len(),
{
    broadcast use vstd::multiset::group_multiset_axioms;
    broadcast use vstd::seq_lib::to_multiset_len;
    broadcast use vstd::multiset::group_multiset_properties;

    if hits.len() > 0 {
        let n = hits.len() - 1;
        let h = hits.last() as int;
        let prefix = hits.drop_last();
        let flags = breaks.drop_last();
        let s1 = if breaks[n] {
            swap_removed(s, h)
        } else {
            s
        };
        if breaks[n] {
            let t = s.update(h, s.last());
            vstd::seq_lib::to_multiset_contains(s, s[h]);
            vstd::seq_lib::to_multiset_update(s, h, s.last());
            assert(t.drop_last().push(t.last()) =~= t);
            vstd::seq_lib::to_multiset_build(t.drop_last(), t.last());
            assert(s1.to_multiset().insert(s.last()) == s.to_multiset().insert(s.last()).remove(s[h]));
            assert forall|v: T| #[trigger] s1.to_multiset().count(v) == s.to_multiset().remove(s[h]).count(v) by {
                assert(s1.to_multiset().insert(s.last()).count(v) == s.to_multiset().insert(s.last()).remove(s[h]).count(v));
                assert(Multiset::singleton(s.last()).count(v) == if v == s.last() { 1nat } else { 0nat });
                assert(Multiset::singleton(s[h]).count(v) == if v == s[h] { 1nat } else { 0nat });
            }
            assert(s1.to_multiset() =~= s.to_multiset().remove(s[h]));
        }
        assert forall|j: int| 0 <= j < prefix.len() implies #[trigger] prefix[j] < s1.len() by {
            assert(hits[j] < hits[n]);
        }
        assert(hits_in_order(prefix, s1.len()));
        lemma_broken_hits_are_all_that_is_removed(s1, prefix, flags);
        lemma_broken_items_read_only_the_hits(s, s1, prefix, flags, h);
        if breaks[n] {
            assert(s.to_multiset().count(s[h]) > 0) by {
                vstd::seq_lib::to_multiset_contains(s, s[h]);
            }
            let w = without_broken_hits(s1, prefix, flags).to_multiset();
            let b = broken_hit_items(s1, prefix, flags);
            assert(without_broken_hits(s, hits, breaks) == without_broken_hits(s1, prefix, flags));
            assert(broken_hit_items(s, hits, breaks) == b.insert(s[h]));
            assert forall|v: T| #[trigger] w.add(b.insert(s[h])).count(v) == s.to_multiset().count(v) by {
                assert(w.add(b).count(v) == s1.to_multiset().count(v));
                assert(Multiset::singleton(s[h]).count(v) == if v == s[h] { 1nat } else { 0nat });
            }
            assert(w.add(b.insert(s[h])) =~= s.to_multiset());
        } else {
            assert(without_broken_hits(s, hits, breaks).to_multiset().add(
                broken_hit_items(s, hits, breaks),
            ) =~= s.to_multiset());
        }
    }
}

/// The broken items depend only on what `s` holds below `bound`, where all
/// hits lie.
proof fn lemma_broken_items_read_only_the_hits<T>(
    s: Seq<T>,
    t: Seq<T>,
    hits: Seq<usize>,
    breaks: Seq<bool>,
    bound: int,
)
    requires
        breaks.len() == hits.len(),
        forall|j: int| 0 <= j < hits.len() ==> #[trigger] hits[j] < bound,
        bound <= s.len(),
        bound <= t.len(),
        forall|i: int| 0 <= i < bound ==> s[i] == t[i],
    ensures
        broken_hit_items(s, hits, breaks) == broken_hit_items(t, hits, breaks),
    decreases hits.len(),
{
    if hits.len() > 0 {
        let prefix = hits.drop_last();
        assert forall|j: int| 0 <= j < prefix.len() implies #[trigger] prefix[j] < bound by {
            assert(prefix[j] == hits[j]);
        }
        lemma_broken_items_read_only_the_hits(s, t, prefix, breaks.drop_last(), bound);
        assert(s[hits.last() as int] == t[hits.last() as int]);
    }
}

/// With no hits, nothing is removed.
pub proof fn lemma_no_hits_remove_nothing<T>(s: Seq<T>, hits: Seq<usize>, breaks: Seq<bool>)
    requires
        hits.len() == 0,
    ensures
        without_broken_hits(s, hits, breaks) == s,
{
}

/// The last hit is handled first. When it breaks, the item then last takes
/// its place, the last place goes, and every other place keeps its item;
/// the earlier hits are then handled on what is left.
pub proof fn lemma_breaking_last_hit_swaps_in_the_last_item<T>(
    s: Seq<T>,
    hits: Seq<usize>,
    breaks: Seq<bool>,
    t: Seq<T>,
)
    requires
        hits_in_order(hits, s.len()),
        breaks.len() == hits.len(),
        hits.len() > 0,
        breaks[hits.len() - 1],
        t.len() + 1 == s.len(),
        hits.last() < t.len() ==> t[hits.last() as int] == s[s.len() - 1],
        forall|i: int| 0 <= i < t.len() && i != hits.last() ==> #[trigger] t[i] == s[i],
    ensures
        without_broken_hits(s, hits, breaks) == without_broken_hits(t, hits.drop_last(), breaks.drop_last()),
{
    let h = hits.last() as int;
    assert(hits[hits.len() - 1] < s.len());
    assert(t =~= swap_removed(s, h));
}

/// The last hit is handled first. When it does not break, the items stay
/// as they are for the earlier hits.
pub proof fn lemma_unbroken_last_hit_keeps_the_items<T>(s: Seq<T>, hits: Seq<usize>, breaks: Seq<bool>)
    requires
        breaks.len() == hits.len(),
        hits.len() > 0,
        !breaks[hits.len() - 1],
    ensures
        without_broken_hits(s, hits, breaks) == without_broken_hits(s, hits.drop_last(), breaks.drop_last()),
{
}

/// Place `p` of `r` holds an item that stood in `s` at or past the end of
/// `r`.
pub open spec fn holds_item_from_past_end<T>(r: Seq<T>, s: Seq<T>, p: int) -> bool {
    exists|j: int| r.len() <= j < s.len() && r[p] == #[trigger] s[j]
}

/// What is left keeps every place that no breaking hit names: such a place
/// holds the same item as before. Every breaking hit that is still a place
/// of what is left holds an item that stood at or past the new end.
pub proof fn lemma_places_after_removal<T>(s: Seq<T>, hits: Seq<usize>, breaks: Seq<bool>)
    requires
        hits_in_order(hits, s.len()),
        breaks.len() == hits.len(),
    ensures
        without_broken_hits(s, hits, breaks).len() <= s.len(),
        forall|i: int|
            0 <= i < without_broken_hits(s, hits, breaks).len() && (forall|k: int|
                0 <= k < hits.len() && hits[k] == i ==> !breaks[k]) ==> #[trigger] without_broken_hits(
                s,
                hits,
                breaks,
            )[i] == s[i],
        forall|k: int|
            0 <= k < hits.len() && #[trigger] breaks[k] && hits[k] < without_broken_hits(s, hits, breaks).len()
                ==> holds_item_from_past_end(without_broken_hits(s, hits, breaks), s, hits[k] as int),
    decreases hits.len(),
{
    if hits.len() > 0 {
        let n = hits.len() - 1;
        let h = hits.last() as int;
        let prefix = hits.drop_last();
        let flags = breaks.drop_last();
        assert(hits[n] < s.len());
        let s1 = if breaks[n] {
            swap_removed(s, h)
        } else {
            s
        };
        assert forall|j: int| 0 <= j < prefix.len() implies #[trigger] prefix[j] < s1.len() by {
            assert(hits[j] < hits[n]);
        }
        assert(hits_in_order(prefix, s1.len()));
        lemma_places_after_removal(s1, prefix, flags);
        let r = without_broken_hits(s, hits, breaks);
        assert(r == without_broken_hits(s1, prefix, flags));
        assert forall|i: int|
            0 <= i < r.len() && (forall|k: int| 0 <= k < hits.len() && hits[k] == i ==> !breaks[k]) implies #[trigger] r[i]
            == s[i] by {
            assert forall|k: int| 0 <= k < prefix.len() && prefix[k] == i implies !flags[k] by {
                assert(hits[k] == i);
            }
            if breaks[n] {
                assert(i != h);
            }
        }
        assert forall|k: int| 0 <= k < hits.len() && #[trigger] breaks[k] && hits[k] < r.len() implies holds_item_from_past_end(r, s, hits[k] as int) by {
            if k == n {
                let hk = hits[k] as int;
                assert forall|m: int| 0 <= m < prefix.len() && prefix[m] == hk implies !flags[m] by {
                    assert(hits[m] < hits[n]);
                }
                assert(r[hk] == s1[hk]);
                assert(s1[hk] == s[s.len() - 1]);
                assert(r[hk] == s[s.len() - 1]);
            } else {
                assert(prefix[k] == hits[k] && flags[k]);
                assert(holds_item_from_past_end(r, s1, prefix[k] as int));
                let j1 = choose|j: int| r.len() <= j < s1.len() && r[prefix[k] as int] == #[trigger] s1[j];
                if breaks[n] && j1 == h {
                    assert(s1[j1] == s[s.len() - 1]);
                } else {
                    assert(s1[j1] == s[j1]);
                }
            }
        }
    }
}

} // verus!
