//! Lists of named things. A name is looked up by its first entry, and new names
//! go to the end, so the order of the entries is the order of creation.

use crate::text::{place_of, place_of_is_first, same};
use vstd::prelude::*;

verus! {

/// The names of the entries.
pub open spec fn keys<V>(entries: Seq<(Seq<char>, V)>) -> Seq<Seq<char>> {
    Seq::new(entries.len(), |i: int| entries[i].0)
}

/// What stands under `key`.
pub open spec fn lookup<V>(entries: Seq<(Seq<char>, V)>, key: Seq<char>) -> Option<V> {
    match place_of(keys(entries), key) {
        Some(i) => Some(entries[i].1),
        None => None,
    }
}

/// `value` under `key`: in its place where the key is known, else at the end.
pub open spec fn put<V>(entries: Seq<(Seq<char>, V)>, key: Seq<char>, value: V) -> Seq<
    (Seq<char>, V),
> {
    match place_of(keys(entries), key) {
        Some(i) => entries.update(i, (key, value)),
        None => entries.push((key, value)),
    }
}

/// Every name stands there once.
pub open spec fn distinct<V>(entries: Seq<(Seq<char>, V)>) -> bool {
    forall|i: int, j: int|
        0 <= i < j < entries.len() ==> (#[trigger] entries[i]).0 != (#[trigger] entries[j]).0
}

/// The entries of names that are not `key`.
pub open spec fn without_key<V>(entries: Seq<(Seq<char>, V)>, key: Seq<char>) -> Seq<
    (Seq<char>, V),
>
    decreases entries.len(),
{
    if entries.len() == 0 {
        entries
    } else if entries.last().0 == key {
        without_key(entries.drop_last(), key)
    } else {
        without_key(entries.drop_last(), key).push(entries.last())
    }
}

/// The entries of ids that are not `id`.
pub open spec fn without_id(entries: Seq<(Seq<char>, u32)>, id: u32) -> Seq<(Seq<char>, u32)>
    decreases entries.len(),
{
    if entries.len() == 0 {
        entries
    } else if entries.last().1 == id {
        without_id(entries.drop_last(), id)
    } else {
        without_id(entries.drop_last(), id).push(entries.last())
    }
}

/// The first name that stands for `id`.
pub open spec fn key_of(entries: Seq<(Seq<char>, u32)>, id: u32) -> Option<Seq<char>>
    decreases entries.len(),
{
    if entries.len() == 0 {
        None
    } else {
        match key_of(entries.drop_last(), id) {
            Some(key) => Some(key),
            None => if entries.last().1 == id {
                Some(entries.last().0)
            } else {
                None
            },
        }
    }
}

/// Entries with names as characters.
pub open spec fn entries_of<V>(entries: Seq<(String, V)>) -> Seq<(Seq<char>, V)> {
    Seq::new(entries.len(), |i: int| (entries[i].0@, entries[i].1))
}

/// A value is found under the name under which it was put, and no other name
/// is touched.
pub proof fn lookup_after_put<V>(
    entries: Seq<(Seq<char>, V)>,
    key: Seq<char>,
    value: V,
    other: Seq<char>,
)
    ensures
        lookup(put(entries, key, value), other) == (if other == key {
            Some(value)
        } else {
            lookup(entries, other)
        }),
{
    let after = put(entries, key, value);
    place_of_is_first(keys(entries), key);
    place_of_is_first(keys(entries), other);
    match place_of(keys(entries), key) {
        Some(i) => {
            assert(keys(after) =~= keys(entries));
        },
        None => {
            assert(keys(after).drop_last() =~= keys(entries));
        },
    }
}

/// An entry that is there is found.
pub proof fn lookup_finds<V>(entries: Seq<(Seq<char>, V)>, i: int)
    requires
        distinct(entries),
        0 <= i < entries.len(),
    ensures
        lookup(entries, entries[i].0) == Some(entries[i].1),
{
    place_of_is_first(keys(entries), entries[i].0);
    assert(keys(entries)[i] == entries[i].0);
}

/// What is found is an entry.
pub proof fn lookup_found<V>(entries: Seq<(Seq<char>, V)>, key: Seq<char>)
    ensures
        match lookup(entries, key) {
            Some(v) => exists|i: int|
                0 <= i < entries.len() && #[trigger] entries[i] == (key, v),
            None => forall|i: int| 0 <= i < entries.len() ==> (#[trigger] entries[i]).0 != key,
        },
{
    place_of_is_first(keys(entries), key);
    match place_of(keys(entries), key) {
        Some(i) => {
            assert(entries[i] == (key, entries[i].1));
        },
        None => {
            assert forall|i: int| 0 <= i < entries.len() implies (#[trigger] entries[i]).0 != key by {
                assert(keys(entries)[i] == entries[i].0);
            }
        },
    }
}

/// Putting keeps the names apart.
pub proof fn put_keeps_distinct<V>(entries: Seq<(Seq<char>, V)>, key: Seq<char>, value: V)
    requires
        distinct(entries),
    ensures
        distinct(put(entries, key, value)),
{
    place_of_is_first(keys(entries), key);
    let after = put(entries, key, value);
    assert forall|i: int, j: int| 0 <= i < j < after.len() implies (#[trigger] after[i]).0 != (
    #[trigger] after[j]).0 by {
        assert(i < entries.len() ==> keys(entries)[i] == entries[i].0);
        assert(j < entries.len() ==> keys(entries)[j] == entries[j].0);
    }
}

/// What is left after an id is taken out.
pub proof fn without_id_members(entries: Seq<(Seq<char>, u32)>, id: u32)
    ensures
        forall|k: int|
            0 <= k < without_id(entries, id).len() ==> (#[trigger] without_id(entries, id)[k]).1
                != id && entries.contains(without_id(entries, id)[k]),
        forall|k: int|
            0 <= k < entries.len() && (#[trigger] entries[k]).1 != id ==> without_id(
                entries,
                id,
            ).contains(entries[k]),
        distinct(entries) ==> distinct(without_id(entries, id)),
    decreases entries.len(),
{
    if entries.len() > 0 {
        let rest = entries.drop_last();
        without_id_members(rest, id);
        let left = without_id(rest, id);
        let all = without_id(entries, id);
        assert forall|k: int| 0 <= k < all.len() implies (#[trigger] all[k]).1 != id
            && entries.contains(all[k]) by {
            if k < left.len() {
                assert(rest.contains(left[k]));
                let j = choose|j: int| 0 <= j < rest.len() && rest[j] == left[k];
                assert(entries[j] == left[k]);
            } else {
                assert(entries[entries.len() - 1] == entries.last());
            }
        }
        assert forall|k: int| 0 <= k < entries.len() && (#[trigger] entries[k]).1
            != id implies all.contains(entries[k]) by {
            if k < rest.len() {
                assert(rest[k] == entries[k]);
                let j = choose|j: int| 0 <= j < left.len() && left[j] == rest[k];
                assert(all[j] == entries[k]);
            } else {
                assert(all[all.len() - 1] == entries[k]);
            }
        }
        if distinct(entries) {
            assert forall|i: int, j: int| 0 <= i < j < rest.len() implies (#[trigger] rest[i]).0 != (
            #[trigger] rest[j]).0 by {
                assert(entries[i].0 != entries[j].0);
            }
            assert forall|i: int, j: int| 0 <= i < j < all.len() implies (#[trigger] all[i]).0 != (
            #[trigger] all[j]).0 by {
                if j < left.len() {
                    assert(left[i].0 != left[j].0);
                } else {
                    let k = choose|k: int| 0 <= k < rest.len() && rest[k] == left[i];
                    assert(entries[k].0 != entries[entries.len() - 1].0);
                }
            }
        }
    }
}

/// What is left after a name is taken out.
pub proof fn without_key_members<V>(entries: Seq<(Seq<char>, V)>, key: Seq<char>)
    ensures
        forall|k: int|
            0 <= k < without_key(entries, key).len() ==> (#[trigger] without_key(
                entries,
                key,
            )[k]).0 != key && entries.contains(without_key(entries, key)[k]),
        forall|k: int|
            0 <= k < entries.len() && (#[trigger] entries[k]).0 != key ==> without_key(
                entries,
                key,
            ).contains(entries[k]),
        distinct(entries) ==> distinct(without_key(entries, key)),
    decreases entries.len(),
{
    if entries.len() > 0 {
        let rest = entries.drop_last();
        without_key_members(rest, key);
        let left = without_key(rest, key);
        let all = without_key(entries, key);
        assert forall|k: int| 0 <= k < all.len() implies (#[trigger] all[k]).0 != key
            && entries.contains(all[k]) by {
            if k < left.len() {
                assert(rest.contains(left[k]));
                let j = choose|j: int| 0 <= j < rest.len() && rest[j] == left[k];
                assert(entries[j] == left[k]);
            } else {
                assert(entries[entries.len() - 1] == entries.last());
            }
        }
        assert forall|k: int| 0 <= k < entries.len() && (#[trigger] entries[k]).0
            != key implies all.contains(entries[k]) by {
            if k < rest.len() {
                assert(rest[k] == entries[k]);
                let j = choose|j: int| 0 <= j < left.len() && left[j] == rest[k];
                assert(all[j] == entries[k]);
            } else {
                assert(all[all.len() - 1] == entries[k]);
            }
        }
        if distinct(entries) {
            assert forall|i: int, j: int| 0 <= i < j < rest.len() implies (#[trigger] rest[i]).0 != (
            #[trigger] rest[j]).0 by {
                assert(entries[i].0 != entries[j].0);
            }
            assert forall|i: int, j: int| 0 <= i < j < all.len() implies (#[trigger] all[i]).0 != (
            #[trigger] all[j]).0 by {
                if j < left.len() {
                    assert(left[i].0 != left[j].0);
                } else {
                    let k = choose|k: int| 0 <= k < rest.len() && rest[k] == left[i];
                    assert(entries[k].0 != entries[entries.len() - 1].0);
                }
            }
        }
    }
}

/// The place of `key`.
pub fn find_key<V>(entries: &Vec<(String, V)>, key: &str) -> (r: Option<usize>)
    ensures
        match r {
            Some(i) => place_of(keys(entries_of(entries@)), key@) == Some(i as int) && i
                < entries@.len(),
            None => place_of(keys(entries_of(entries@)), key@) is None,
        },
{
    let ghost all = keys(entries_of(entries@));
    let mut i: usize = 0;
    assert(all.take(0) =~= Seq::<Seq<char>>::empty());
    while i < entries.len()
        invariant
            all == keys(entries_of(entries@)),
            i <= entries@.len(),
            place_of(all.take(i as int), key@) is None,
        decreases entries@.len() - i,
    {
        assert(all.take(i as int + 1).drop_last() =~= all.take(i as int));
        if same(entries[i].0.as_str(), key) {
            proof {
                crate::text::place_of_extends(all, i as int + 1, key@);
            }
            return Some(i);
        }
        i += 1;
    }
    assert(all.take(i as int) =~= all);
    None
}

/// Puts `value` under `key`: in its place where the key is known, else at the
/// end.
pub fn put_entry<V>(entries: &mut Vec<(String, V)>, key: String, value: V)
    ensures
        final(entries)@ == (match place_of(keys(entries_of(old(entries)@)), key@) {
            Some(i) => old(entries)@.update(i, (key, value)),
            None => old(entries)@.push((key, value)),
        }),
        entries_of(final(entries)@) == put(entries_of(old(entries)@), key@, value),
{
    let ghost was = entries_of(entries@);
    match find_key(entries, key.as_str()) {
        Some(i) => {
            entries.set(i, (key, value));
            assert(entries_of(entries@) =~= was.update(i as int, (key@, value)));
        },
        None => {
            entries.push((key, value));
            assert(entries_of(entries@) =~= was.push((key@, value)));
        },
    }
}

/// The id under `key`.
pub fn find_id(entries: &Vec<(String, u32)>, key: &str) -> (r: Option<u32>)
    ensures
        r == lookup(entries_of(entries@), key@),
{
    match find_key(entries, key) {
        Some(i) => Some(entries[i].1),
        None => None,
    }
}

/// Takes out the entries for `key`.
pub fn remove_key(entries: &mut Vec<(String, u32)>, key: &str)
    ensures
        entries_of(final(entries)@) == without_key(entries_of(old(entries)@), key@),
{
    let ghost all = entries_of(entries@);
    let mut out: Vec<(String, u32)> = Vec::new();
    let mut i: usize = 0;
    assert(entries_of(out@) =~= without_key(all.take(0), key@));
    while i < entries.len()
        invariant
            all == entries_of(entries@),
            i <= entries@.len(),
            entries_of(out@) == without_key(all.take(i as int), key@),
        decreases entries@.len() - i,
    {
        let ghost before = entries_of(out@);
        assert(all.take(i as int + 1).drop_last() =~= all.take(i as int));
        if !same(entries[i].0.as_str(), key) {
            out.push((entries[i].0.clone(), entries[i].1));
            assert(entries_of(out@) =~= before.push(all[i as int]));
        }
        i += 1;
    }
    assert(all.take(i as int) =~= all);
    *entries = out;
}

/// Takes out the entries for `id`.
pub fn remove_id(entries: &mut Vec<(String, u32)>, id: u32)
    ensures
        entries_of(final(entries)@) == without_id(entries_of(old(entries)@), id),
{
    let ghost all = entries_of(entries@);
    let mut out: Vec<(String, u32)> = Vec::new();
    let mut i: usize = 0;
    assert(entries_of(out@) =~= without_id(all.take(0), id));
    while i < entries.len()
        invariant
            all == entries_of(entries@),
            i <= entries@.len(),
            entries_of(out@) == without_id(all.take(i as int), id),
        decreases entries@.len() - i,
    {
        let ghost before = entries_of(out@);
        assert(all.take(i as int + 1).drop_last() =~= all.take(i as int));
        if entries[i].1 != id {
            out.push((entries[i].0.clone(), entries[i].1));
            assert(entries_of(out@) =~= before.push(all[i as int]));
        }
        i += 1;
    }
    assert(all.take(i as int) =~= all);
    *entries = out;
}

/// The place of the first name that stands for `id`.
pub fn find_name(entries: &Vec<(String, u32)>, id: u32) -> (r: Option<usize>)
    ensures
        match r {
            Some(i) => i < entries@.len() && key_of(entries_of(entries@), id) == Some(
                entries@[i as int].0@,
            ),
            None => key_of(entries_of(entries@), id) is None,
        },
{
    let ghost all = entries_of(entries@);
    let mut i: usize = 0;
    while i < entries.len()
        invariant
            all == entries_of(entries@),
            i <= entries@.len(),
            key_of(all.take(i as int), id) is None,
        decreases entries@.len() - i,
    {
        assert(all.take(i as int + 1).drop_last() =~= all.take(i as int));
        if entries[i].1 == id {
            proof {
                key_of_extends(all, i as int + 1, id);
            }
            return Some(i);
        }
        i += 1;
    }
    assert(all.take(i as int) =~= all);
    None
}

proof fn key_of_extends(entries: Seq<(Seq<char>, u32)>, n: int, id: u32)
    requires
        0 <= n <= entries.len(),
        key_of(entries.take(n), id) is Some,
    ensures
        key_of(entries, id) == key_of(entries.take(n), id),
    decreases entries.len() - n,
{
    if n < entries.len() {
        assert(entries.take(n + 1).drop_last() =~= entries.take(n));
        key_of_extends(entries, n + 1, id);
    } else {
        assert(entries.take(n) =~= entries);
    }
}

} // verus!
