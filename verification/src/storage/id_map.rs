use std::collections::BTreeMap;
use vstd::prelude::*;

verus! {

broadcast use {vstd::std_specs::btree::group_btree_axioms, vstd::laws_cmp::group_laws_cmp};

/// A map with its values in view.
pub open spec fn viewed<V: View>(map: Map<u32, V>) -> Map<u32, V::V> {
    Map::new(|id: u32| map.contains_key(id), |id: u32| map[id]@)
}

pub broadcast proof fn viewed_insert<V: View>(map: Map<u32, V>, id: u32, value: V)
    ensures
        #[trigger] viewed(map.insert(id, value)) == viewed(map).insert(id, value@),
{
    assert(viewed(map.insert(id, value)) =~= viewed(map).insert(id, value@));
}

pub broadcast proof fn viewed_remove<V: View>(map: Map<u32, V>, id: u32)
    ensures
        #[trigger] viewed(map.remove(id)) == viewed(map).remove(id),
{
    assert(viewed(map.remove(id)) =~= viewed(map).remove(id));
}

/// The ids that are not `id`.
pub open spec fn ids_without(ids: Seq<u32>, id: u32) -> Seq<u32>
    decreases ids.len(),
{
    if ids.len() == 0 {
        ids
    } else if ids.last() == id {
        ids_without(ids.drop_last(), id)
    } else {
        ids_without(ids.drop_last(), id).push(ids.last())
    }
}

/// The ids with `id` at the end, unless it is among them.
pub open spec fn ids_with(ids: Seq<u32>, id: u32) -> Seq<u32> {
    if ids.contains(id) {
        ids
    } else {
        ids.push(id)
    }
}

/// The first place of `id`.
pub open spec fn place_of_id(ids: Seq<u32>, id: u32) -> Option<int>
    decreases ids.len(),
{
    if ids.len() == 0 {
        None
    } else {
        match place_of_id(ids.drop_last(), id) {
            Some(i) => Some(i),
            None => if ids.last() == id {
                Some(ids.len() - 1)
            } else {
                None
            },
        }
    }
}

pub proof fn place_of_id_is_first(ids: Seq<u32>, id: u32)
    ensures
        match place_of_id(ids, id) {
            Some(i) => 0 <= i < ids.len() && ids[i] == id && forall|j: int|
                0 <= j < i ==> ids[j] != id,
            None => !ids.contains(id),
        },
    decreases ids.len(),
{
    if ids.len() > 0 {
        let rest = ids.drop_last();
        place_of_id_is_first(rest, id);
        assert forall|j: int| 0 <= j < rest.len() implies rest[j] == ids[j] by {}
        match place_of_id(rest, id) {
            Some(i) => {
                assert forall|j: int| 0 <= j < i implies ids[j] != id by {
                    assert(rest[j] == ids[j]);
                }
            },
            None => {
                assert forall|j: int| 0 <= j < rest.len() implies ids[j] != id by {
                    assert(rest[j] == ids[j]);
                    assert(!rest.contains(id));
                }
            },
        }
    }
}

pub proof fn place_of_id_extends(ids: Seq<u32>, n: int, id: u32)
    requires
        0 <= n <= ids.len(),
        place_of_id(ids.take(n), id) is Some,
    ensures
        place_of_id(ids, id) == place_of_id(ids.take(n), id),
    decreases ids.len() - n,
{
    if n < ids.len() {
        assert(ids.take(n + 1).drop_last() =~= ids.take(n));
        place_of_id_extends(ids, n + 1, id);
    } else {
        assert(ids.take(n) =~= ids);
    }
}

/// What is left after an id is taken out.
pub proof fn ids_without_members(ids: Seq<u32>, id: u32)
    ensures
        forall|other: u32| #[trigger]
            ids_without(ids, id).contains(other) == (other != id && ids.contains(other)),
        ids.no_duplicates() ==> ids_without(ids, id).no_duplicates(),
        !ids.contains(id) ==> ids_without(ids, id) == ids,
    decreases ids.len(),
{
    if ids.len() > 0 {
        let rest = ids.drop_last();
        ids_without_members(rest, id);
        let left = ids_without(rest, id);
        let all = ids_without(ids, id);
        assert forall|other: u32| #[trigger] all.contains(other) == (other != id && ids.contains(
            other,
        )) by {
            assert(left.contains(other) == (other != id && rest.contains(other)));
            if rest.contains(other) {
                let k = choose|k: int| 0 <= k < rest.len() && rest[k] == other;
                assert(ids[k] == other);
            }
            if ids.contains(other) && other != ids.last() {
                let k = choose|k: int| 0 <= k < ids.len() && ids[k] == other;
                assert(rest[k] == other);
            }
            if left.contains(other) {
                let k = choose|k: int| 0 <= k < left.len() && left[k] == other;
                assert(all[k] == other);
            }
            if all.contains(other) && all.len() > left.len() && other != ids.last() {
                let k = choose|k: int| 0 <= k < all.len() && all[k] == other;
                assert(left[k] == other);
            }
            if all.len() > left.len() {
                assert(all[all.len() - 1] == ids.last());
            }
            assert(ids[ids.len() - 1] == ids.last());
        }
        if ids.no_duplicates() {
            assert(rest.no_duplicates());
            assert(!rest.contains(ids.last())) by {
                if rest.contains(ids.last()) {
                    let k = choose|k: int| 0 <= k < rest.len() && rest[k] == ids.last();
                    assert(ids[k] == ids[ids.len() - 1]);
                }
            }
            assert(!left.contains(ids.last()));
            assert forall|i: int, j: int| 0 <= i < j < all.len() implies all[i] != all[j] by {
                if j < left.len() {
                    assert(left[i] != left[j]);
                } else {
                    assert(left.contains(left[i]));
                }
            }
        }
        if !ids.contains(id) {
            assert(!rest.contains(id)) by {
                if rest.contains(id) {
                    let k = choose|k: int| 0 <= k < rest.len() && rest[k] == id;
                    assert(ids[k] == id);
                }
            }
            assert(ids[ids.len() - 1] != id);
            assert(all =~= ids);
        }
    }
}

/// Strictly ascending ids.
pub open spec fn ascending(ids: Seq<u32>) -> bool {
    forall|i: int, j: int| 0 <= i < j < ids.len() ==> ids[i] < ids[j]
}

/// The ids of a set, ascending.
pub open spec fn in_turn(ids: Set<u32>) -> Seq<u32> {
    choose|list: Seq<u32>| ascending(list) && #[trigger] list.to_set() == ids
}

proof fn ascending_lists_agree(a: Seq<u32>, b: Seq<u32>, n: int)
    requires
        ascending(a),
        ascending(b),
        a.to_set() == b.to_set(),
        0 <= n <= a.len(),
    ensures
        n <= b.len(),
        forall|i: int| 0 <= i < n ==> a[i] == b[i],
    decreases n,
{
    if n > 0 {
        let last = n - 1;
        ascending_lists_agree(a, b, last);
        assert(a.contains(a[last]));
        assert(a.to_set().contains(a[last]));
        assert(b.to_set().contains(a[last]));
        let j = choose|j: int| 0 <= j < b.len() && b[j] == a[last];
        if j < last {
            assert(a[j] == b[j]);
        }
        if j > last {
            assert(b.contains(b[last]));
            assert(b.to_set().contains(b[last]));
            assert(a.to_set().contains(b[last]));
            let k = choose|k: int| 0 <= k < a.len() && a[k] == b[last];
            if k < last {
                assert(a[k] == b[k]);
            }
        }
    }
}

/// There is but one ascending list of the ids of a set.
pub proof fn in_turn_is_unique(list: Seq<u32>)
    requires
        ascending(list),
    ensures
        list == in_turn(list.to_set()),
{
    let other = in_turn(list.to_set());
    ascending_lists_agree(list, other, list.len() as int);
    ascending_lists_agree(other, list, other.len() as int);
    assert(list =~= other);
}

/// The ids of the set below `n`, ascending.
spec fn listed_below(ids: Set<u32>, n: nat) -> Seq<u32>
    decreases n,
{
    if n == 0 {
        Seq::empty()
    } else if ids.contains((n - 1) as u32) {
        listed_below(ids, (n - 1) as nat).push((n - 1) as u32)
    } else {
        listed_below(ids, (n - 1) as nat)
    }
}

proof fn listed_below_lists(ids: Set<u32>, n: nat)
    requires
        n <= u32::MAX + 1,
    ensures
        ascending(listed_below(ids, n)),
        forall|id: u32| #[trigger]
            listed_below(ids, n).contains(id) == (id < n && ids.contains(id)),
    decreases n,
{
    if n > 0 {
        let last = (n - 1) as u32;
        let before = listed_below(ids, (n - 1) as nat);
        let all = listed_below(ids, n);
        listed_below_lists(ids, (n - 1) as nat);
        if ids.contains(last) {
            assert forall|i: int, j: int| 0 <= i < j < all.len() implies all[i] < all[j] by {
                assert(before.contains(all[i]));
            }
        }
        assert forall|id: u32| #[trigger] all.contains(id) == (id < n && ids.contains(id)) by {
            assert(before.contains(id) == (id < n - 1 && ids.contains(id)));
            if before.contains(id) {
                let k = choose|k: int| 0 <= k < before.len() && before[k] == id;
                assert(all[k] == id);
            }
            if ids.contains(last) {
                assert(all[all.len() - 1] == last);
            }
            if all.contains(id) {
                let k = choose|k: int| 0 <= k < all.len() && all[k] == id;
                if k < before.len() {
                    assert(before[k] == id);
                }
            }
        }
    }
}

/// Every set of ids has its list.
pub proof fn in_turn_lists(ids: Set<u32>)
    ensures
        ascending(in_turn(ids)),
        in_turn(ids).to_set() == ids,
{
    let list = listed_below(ids, (u32::MAX + 1) as nat);
    listed_below_lists(ids, (u32::MAX + 1) as nat);
    assert(list.to_set() =~= ids);
}

/// The keys of `map`, ascending.
pub fn sorted_keys<V>(map: &BTreeMap<u32, V>) -> (r: Vec<u32>)
    ensures
        ascending(r@),
        r@.to_set() == map@.dom(),
        r@ == in_turn(map@.dom()),
{
    let mut out: Vec<u32> = Vec::new();
    let entries = map.iter();
    let ghost all = vstd::std_specs::iter::IteratorSpec::remaining(&entries);
    let ghost keys = all.map_values(|kv: (&u32, &V)| *kv.0);
    for kv in it: entries
        invariant
            it.seq() == all,
            out@ =~= keys.take(it.index()),
            keys == all.map_values(|kv: (&u32, &V)| *kv.0),
    {
        out.push(*kv.0);
    }
    proof {
        assert(out@ =~= keys);
        assert(vstd::std_specs::btree::increasing_seq(keys));
        assert forall|i: int, j: int| 0 <= i < j < out@.len() implies out@[i] < out@[j] by {
            assert(vstd::std_specs::cmp::OrdSpec::cmp_spec(&keys[i], &keys[j]) is Less);
        }
        assert forall|k: u32| out@.to_set().contains(k) == map@.dom().contains(k) by {
            if map@.contains_key(k) {
                assert(all.contains((&k, &map@[k])));
                let i = choose|i: int| 0 <= i < all.len() && all[i] == (&k, &map@[k]);
                assert(out@[i] == k);
            }
            if out@.contains(k) {
                let i = choose|i: int| 0 <= i < out@.len() && out@[i] == k;
                assert(map@.contains_key(*all[i].0));
            }
        }
        assert(out@.to_set() =~= map@.dom());
        in_turn_is_unique(out@);
    }
    out
}

/// A copy of the ids.
pub fn copy_ids(ids: &[u32]) -> (r: Vec<u32>)
    ensures
        r@ == ids@,
{
    let mut out: Vec<u32> = Vec::new();
    for i in 0..ids.len()
        invariant
            out@ == ids@.take(i as int),
    {
        out.push(ids[i]);
        assert(out@ =~= ids@.take(i as int + 1));
    }
    assert(ids@.take(ids@.len() as int) =~= ids@);
    out
}

/// The first place of `id`.
pub fn find_place(ids: &Vec<u32>, id: u32) -> (r: Option<usize>)
    ensures
        match r {
            Some(i) => place_of_id(ids@, id) == Some(i as int) && i < ids@.len() && ids@.contains(
                id,
            ),
            None => place_of_id(ids@, id) is None && !ids@.contains(id),
        },
{
    let mut i: usize = 0;
    while i < ids.len()
        invariant
            i <= ids@.len(),
            place_of_id(ids@.take(i as int), id) is None,
        decreases ids@.len() - i,
    {
        assert(ids@.take(i as int + 1).drop_last() =~= ids@.take(i as int));
        if ids[i] == id {
            proof {
                place_of_id_extends(ids@, i as int + 1, id);
            }
            return Some(i);
        }
        i += 1;
    }
    assert(ids@.take(i as int) =~= ids@);
    proof {
        place_of_id_is_first(ids@, id);
    }
    None
}

/// Takes `id` out.
pub fn remove_from(ids: &mut Vec<u32>, id: u32)
    ensures
        final(ids)@ == ids_without(old(ids)@, id),
{
    let mut out: Vec<u32> = Vec::new();
    let mut i: usize = 0;
    while i < ids.len()
        invariant
            i <= ids@.len(),
            ids@ == old(ids)@,
            out@ == ids_without(ids@.take(i as int), id),
        decreases ids@.len() - i,
    {
        assert(ids@.take(i as int + 1).drop_last() =~= ids@.take(i as int));
        if ids[i] != id {
            out.push(ids[i]);
        }
        i += 1;
    }
    assert(ids@.take(i as int) =~= ids@);
    *ids = out;
}

/// Puts `id` at the end, unless it is there.
pub fn push_if_new(ids: &mut Vec<u32>, id: u32)
    ensures
        final(ids)@ == ids_with(old(ids)@, id),
{
    if find_place(ids, id).is_none() {
        ids.push(id);
    }
}

/// The entries of a map in the order of their ids.
pub open spec fn pairs_of<V>(map: Map<u32, V>) -> Seq<(u32, V)> {
    let ids = in_turn(map.dom());
    Seq::new(ids.len(), |i: int| (ids[i], map[ids[i]]))
}

/// The entries of a map in the order of their ids.
pub fn pairs<V: Copy>(map: &BTreeMap<u32, V>) -> (r: Vec<(u32, V)>)
    ensures
        r@ == pairs_of(map@),
        in_turn(map@.dom()).to_set() == map@.dom(),
{
    let ids = sorted_keys(map);
    let mut out: Vec<(u32, V)> = Vec::new();
    let mut i: usize = 0;
    while i < ids.len()
        invariant
            i <= ids@.len(),
            ids@ == in_turn(map@.dom()),
            ids@.to_set() == map@.dom(),
            out@ == pairs_of(map@).take(i as int),
        decreases ids@.len() - i,
    {
        assert(ids@.to_set().contains(ids@[i as int]));
        match map.get(&ids[i]) {
            Some(v) => {
                out.push((ids[i], *v));
            },
            None => {},
        }
        assert(out@ =~= pairs_of(map@).take(i as int + 1));
        i += 1;
    }
    assert(pairs_of(map@).take(i as int) =~= pairs_of(map@));
    out
}

} // verus!
