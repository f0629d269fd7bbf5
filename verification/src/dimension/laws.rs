//! What holds of a dimension, whatever is done to it.

use crate::dimension::dimension::{
    after_id, each, first_by_name, ids_known, set_at, types_left, with_leaves, DimensionModel,
    MemberType,
};
use crate::dimension::hierarchy::HierarchyModel;
use crate::number::Number;
use crate::storage::id_map::{ascending, in_turn, in_turn_lists};
use crate::storage::name_map::{
    distinct, keys, lookup, lookup_after_put, lookup_finds, lookup_found, put, put_keeps_distinct,
    without_id, without_id_members, without_key, without_key_members,
};
use crate::text::{
    case_makes_no_difference, is_ascii_text, lowercase, place_of, place_of_is_first, same_but_case,
};
use vstd::prelude::*;

verus! {

/// No id stands under two names.
pub open spec fn ids_distinct(entries: Seq<(Seq<char>, u32)>) -> bool {
    forall|i: int, j: int|
        0 <= i < j < entries.len() ==> (#[trigger] entries[i]).1 != (#[trigger] entries[j]).1
}

/// A bank of leaves: names and ids go together one to one, and the ids are
/// below `next`.
pub open spec fn bank_sound(
    leaf_ids: Seq<(Seq<char>, u32)>,
    leaf_names: Map<u32, Seq<char>>,
    next: u32,
) -> bool {
    &&& distinct(leaf_ids)
    &&& forall|i: int|
        0 <= i < leaf_ids.len() ==> leaf_names.contains_key((#[trigger] leaf_ids[i]).1)
            && lowercase(leaf_names[leaf_ids[i].1]) == leaf_ids[i].0
    &&& forall|id: u32| #[trigger]
        leaf_names.contains_key(id) ==> id < next && leaf_ids.contains(
            (lowercase(leaf_names[id]), id),
        )
}

impl<N: Number> HierarchyModel<N> {
    /// The leaf is known here under its id, unless an aggregate of this hierarchy
    /// has its name.
    pub open spec fn knows(
        self,
        leaf: (Seq<char>, u32),
        leaf_names: Map<u32, Seq<char>>,
    ) -> bool {
        match lookup(self.members, leaf.0) {
            Some(id) => id == leaf.1 || !leaf_names.contains_key(id),
            None => false,
        }
    }

    /// Names and ids go together one to one; every leaf is known under its id,
    /// unless an aggregate has its name; no leaf is an aggregate or has children;
    /// the ids are below `next`.
    pub open spec fn sound_over(
        self,
        leaf_ids: Seq<(Seq<char>, u32)>,
        leaf_names: Map<u32, Seq<char>>,
        next: u32,
    ) -> bool {
        &&& distinct(self.members)
        &&& ids_distinct(self.members)
        &&& forall|i: int| 0 <= i < self.members.len() ==> (#[trigger] self.members[i]).1 < next
        &&& forall|i: int|
            0 <= i < self.members.len() && leaf_names.contains_key(
                (#[trigger] self.members[i]).1,
            ) ==> self.members[i].0 == lowercase(leaf_names[self.members[i].1])
        &&& forall|i: int|
            0 <= i < leaf_ids.len() ==> self.knows(#[trigger] leaf_ids[i], leaf_names)
        &&& forall|id: u32| #[trigger]
            self.names.contains_key(id) ==> id < next && !leaf_names.contains_key(id)
        &&& forall|id: u32| #[trigger]
            self.children.contains_key(id) ==> id < next && !leaf_names.contains_key(id)
    }
}

/// Two hierarchies have no member in common that is not a leaf.
pub open spec fn only_leaves_shared<N: Number>(
    hierarchies: Seq<(Seq<char>, HierarchyModel<N>)>,
    leaf_names: Map<u32, Seq<char>>,
) -> bool {
    forall|a: int, b: int, i: int, j: int|
        #![trigger hierarchies[a].1.members[i], hierarchies[b].1.members[j]]
        0 <= a < b < hierarchies.len() && 0 <= i < hierarchies[a].1.members.len() && 0 <= j
            < hierarchies[b].1.members.len() && hierarchies[a].1.members[i].1
            == hierarchies[b].1.members[j].1 ==> leaf_names.contains_key(
            hierarchies[a].1.members[i].1,
        )
}

impl<N: Number> DimensionModel<N> {
    /// There is a default hierarchy, and it knows every leaf under its id.
    pub open spec fn default_knows_leaves(self) -> bool {
        self.place(self.default_hierarchy) matches Some(p) && forall|i: int|
            0 <= i < self.leaf_ids.len() ==> self.hierarchies[p].1.members.contains(
                #[trigger] self.leaf_ids[i],
            )
    }

    /// What every dimension keeps to: names and ids of leaves go together one
    /// to one, a leaf is known in the default hierarchy and in every other that
    /// has no aggregate of its name, no aggregate is known in two, a member is a
    /// leaf or an aggregate and not both, and no id is given out that is in use.
    pub open spec fn sound(self) -> bool {
        &&& self.default_knows_leaves()
        &&& bank_sound(self.leaf_ids, self.leaf_names, self.next_id)
        &&& forall|id: u32| #[trigger] self.leaf_names.contains_key(id) ==> !self.is_aggregate(id)
        &&& forall|p: int|
            0 <= p < self.hierarchies.len() ==> (#[trigger] self.hierarchies[p]).1.sound_over(
                self.leaf_ids,
                self.leaf_names,
                self.next_id,
            )
        &&& only_leaves_shared(self.hierarchies, self.leaf_names)
    }
}

// ---------------------------------------------------------------------------
// Steps
// ---------------------------------------------------------------------------

proof fn left_ids_distinct(entries: Seq<(Seq<char>, u32)>, id: u32)
    requires
        distinct(entries),
        ids_distinct(entries),
    ensures
        distinct(without_id(entries, id)),
        ids_distinct(without_id(entries, id)),
{
    let left = without_id(entries, id);
    without_id_members(entries, id);
    assert forall|i: int, j: int| 0 <= i < j < left.len() implies (#[trigger] left[i]).1 != (
    #[trigger] left[j]).1 by {
        let a = choose|a: int| 0 <= a < entries.len() && entries[a] == left[i];
        let b = choose|b: int| 0 <= b < entries.len() && entries[b] == left[j];
        assert(left[i].0 != left[j].0);
        if a < b {
            assert(entries[a].1 != entries[b].1);
        } else if b < a {
            assert(entries[b].1 != entries[a].1);
        }
    }
}

/// Two leaves have names that differ in more than case.
pub proof fn bank_is_one_to_one(
    leaf_ids: Seq<(Seq<char>, u32)>,
    leaf_names: Map<u32, Seq<char>>,
    next: u32,
    a: u32,
    b: u32,
)
    requires
        bank_sound(leaf_ids, leaf_names, next),
        leaf_names.contains_key(a),
        leaf_names.contains_key(b),
        lowercase(leaf_names[a]) == lowercase(leaf_names[b]),
    ensures
        a == b,
{
    let i = choose|i: int|
        0 <= i < leaf_ids.len() && leaf_ids[i] == (lowercase(leaf_names[a]), a);
    let j = choose|j: int|
        0 <= j < leaf_ids.len() && leaf_ids[j] == (lowercase(leaf_names[b]), b);
    if i < j {
        assert(leaf_ids[i].0 != leaf_ids[j].0);
    } else if j < i {
        assert(leaf_ids[j].0 != leaf_ids[i].0);
    }
}

/// The bank with a leaf more.
proof fn bank_grows(
    leaf_ids: Seq<(Seq<char>, u32)>,
    leaf_names: Map<u32, Seq<char>>,
    next: u32,
    name: Seq<char>,
)
    requires
        bank_sound(leaf_ids, leaf_names, next),
        next < u32::MAX,
        lookup(leaf_ids, lowercase(name)) is None,
    ensures
        bank_sound(
            leaf_ids.push((lowercase(name), next)),
            leaf_names.insert(next, name),
            (next + 1) as u32,
        ),
{
    let ids = leaf_ids.push((lowercase(name), next));
    let names = leaf_names.insert(next, name);
    lookup_found(leaf_ids, lowercase(name));
    assert forall|i: int| 0 <= i < ids.len() implies names.contains_key((#[trigger] ids[i]).1)
        && lowercase(names[ids[i].1]) == ids[i].0 by {
        if i < leaf_ids.len() {
            assert(leaf_names.contains_key(leaf_ids[i].1));
        }
    }
    assert forall|id: u32| #[trigger] names.contains_key(id) implies id < next + 1 && ids.contains(
        (lowercase(names[id]), id),
    ) by {
        if id == next {
            assert(ids[leaf_ids.len() as int] == (lowercase(name), next));
        } else {
            assert(leaf_names.contains_key(id));
            let k = choose|k: int|
                0 <= k < leaf_ids.len() && leaf_ids[k] == (lowercase(leaf_names[id]), id);
            assert(ids[k] == leaf_ids[k]);
        }
    }
}

/// The bank with a leaf less.
proof fn bank_shrinks(
    leaf_ids: Seq<(Seq<char>, u32)>,
    leaf_names: Map<u32, Seq<char>>,
    next: u32,
    key: Seq<char>,
    id: u32,
)
    requires
        bank_sound(leaf_ids, leaf_names, next),
        lookup(leaf_ids, key) == Some(id),
    ensures
        bank_sound(without_key(leaf_ids, key), leaf_names.remove(id), next),
        leaf_names.contains_key(id),
        lowercase(leaf_names[id]) == key,
{
    let ids = without_key(leaf_ids, key);
    let names = leaf_names.remove(id);
    lookup_found(leaf_ids, key);
    without_key_members(leaf_ids, key);
    let at = choose|at: int| 0 <= at < leaf_ids.len() && leaf_ids[at] == (key, id);
    assert(leaf_names.contains_key(leaf_ids[at].1));
    assert forall|i: int| 0 <= i < ids.len() implies names.contains_key((#[trigger] ids[i]).1)
        && lowercase(names[ids[i].1]) == ids[i].0 by {
        let k = choose|k: int| 0 <= k < leaf_ids.len() && leaf_ids[k] == ids[i];
        assert(leaf_names.contains_key(leaf_ids[k].1));
    }
    assert forall|other: u32| #[trigger] names.contains_key(other) implies other < next
        && ids.contains((lowercase(names[other]), other)) by {
        assert(leaf_names.contains_key(other));
        let k = choose|k: int|
            0 <= k < leaf_ids.len() && leaf_ids[k] == (lowercase(leaf_names[other]), other);
        if lowercase(leaf_names[other]) == key {
            bank_is_one_to_one(leaf_ids, leaf_names, next, other, id);
        }
        assert(leaf_ids[k].0 != key);
        assert(ids.contains(leaf_ids[k]));
    }
}

impl<N: Number> HierarchyModel<N> {
    /// A hierarchy over a bank with a leaf more.
    proof fn takes_leaf(
        self,
        leaf_ids: Seq<(Seq<char>, u32)>,
        leaf_names: Map<u32, Seq<char>>,
        next: u32,
        name: Seq<char>,
    )
        requires
            self.sound_over(leaf_ids, leaf_names, next),
            bank_sound(leaf_ids, leaf_names, next),
            next < u32::MAX,
            self.id_of(name) matches Some(id) ==> !leaf_names.contains_key(id),
        ensures
            self.with_leaf(name, next).sound_over(
                leaf_ids.push((lowercase(name), next)),
                leaf_names.insert(next, name),
                (next + 1) as u32,
            ),
            forall|m: (Seq<char>, u32)|
                self.members.contains(m) ==> #[trigger] self.with_leaf(name, next).members.contains(
                    m,
                ),
            self.id_of(name) is None ==> self.with_leaf(name, next).members.contains(
                (lowercase(name), next),
            ),
    {
        let key = lowercase(name);
        let after = self.with_leaf(name, next);
        let ids = leaf_ids.push((key, next));
        let names = leaf_names.insert(next, name);
        lookup_found(self.members, key);
        if self.id_of(name) is None {
            assert(after.members[self.members.len() as int] == (key, next));
            place_of_is_first(keys(self.members), key);
            assert(after.members == put(self.members, key, next));
        } else {
            let at = choose|at: int|
                0 <= at < self.members.len() && #[trigger] self.members[at] == (
                    key,
                    self.id_of(name)->0,
                );
            assert(self.members[at].1 < next);
        }
        assert forall|i: int| 0 <= i < after.members.len() && names.contains_key(
            (#[trigger] after.members[i]).1,
        ) implies after.members[i].0 == lowercase(names[after.members[i].1]) by {
            if i < self.members.len() {
                assert(after.members[i] == self.members[i]);
                assert(self.members[i].1 < next);
            }
        }
        assert forall|i: int| 0 <= i < ids.len() implies after.knows(#[trigger] ids[i], names) by {
            lookup_after_put(self.members, key, next, ids[i].0);
            if i < leaf_ids.len() {
                assert(self.knows(leaf_ids[i], leaf_names));
                let x = lookup(self.members, ids[i].0)->0;
                lookup_found(self.members, ids[i].0);
                let at = choose|at: int|
                    0 <= at < self.members.len() && #[trigger] self.members[at] == (ids[i].0, x);
                assert(self.members[at].1 < next);
            }
        }
        assert forall|m: (Seq<char>, u32)|
            self.members.contains(m) implies #[trigger] after.members.contains(m) by {
            let k = choose|k: int| 0 <= k < self.members.len() && self.members[k] == m;
            assert(after.members[k] == m);
        }
        assert forall|i: int| 0 <= i < after.members.len() implies (#[trigger] after.members[i]).1
            < next + 1 by {
            if i < self.members.len() {
                assert(after.members[i] == self.members[i]);
            }
        }
        assert forall|i: int, j: int| 0 <= i < j < after.members.len() implies (
        #[trigger] after.members[i]).1 != (#[trigger] after.members[j]).1 by {
            assert(after.members[i] == self.members[i]);
            if j < self.members.len() {
                assert(after.members[j] == self.members[j]);
            }
        }
        assert forall|i: int, j: int| 0 <= i < j < after.members.len() implies (
        #[trigger] after.members[i]).0 != (#[trigger] after.members[j]).0 by {
            assert(after.members[i] == self.members[i]);
            if j < self.members.len() {
                assert(after.members[j] == self.members[j]);
            }
        }
    }

    /// A leaf's id goes by the leaf's name.
    proof fn leaf_goes_by_its_name(
        self,
        leaf_ids: Seq<(Seq<char>, u32)>,
        leaf_names: Map<u32, Seq<char>>,
        next: u32,
        key: Seq<char>,
        id: u32,
    )
        requires
            self.sound_over(leaf_ids, leaf_names, next),
            leaf_names.contains_key(id),
            lookup(self.members, key) == Some(id),
        ensures
            key == lowercase(leaf_names[id]),
    {
        lookup_found(self.members, key);
        let at = choose|at: int|
            0 <= at < self.members.len() && #[trigger] self.members[at] == (key, id);
        assert(leaf_names.contains_key(self.members[at].1));
    }

    /// An id goes by one name.
    pub proof fn one_name_each(self, a: Seq<char>, b: Seq<char>)
        requires
            ids_distinct(self.members),
            lookup(self.members, a) is Some,
            lookup(self.members, a) == lookup(self.members, b),
        ensures
            a == b,
    {
        lookup_found(self.members, a);
        lookup_found(self.members, b);
        let id = lookup(self.members, a)->0;
        let i = choose|i: int|
            0 <= i < self.members.len() && #[trigger] self.members[i] == (a, id);
        let j = choose|j: int|
            0 <= j < self.members.len() && #[trigger] self.members[j] == (b, id);
        if i < j {
            assert(self.members[i].1 != self.members[j].1);
        } else if j < i {
            assert(self.members[j].1 != self.members[i].1);
        }
    }

    /// A hierarchy without one id, over a bank without it.
    proof fn loses_id(
        self,
        leaf_ids: Seq<(Seq<char>, u32)>,
        leaf_names: Map<u32, Seq<char>>,
        next: u32,
        left_ids: Seq<(Seq<char>, u32)>,
        left_names: Map<u32, Seq<char>>,
        id: u32,
        after: Self,
    )
        requires
            self.sound_over(leaf_ids, leaf_names, next),
            left_names == leaf_names.remove(id),
            forall|i: int| 0 <= i < left_ids.len() ==> leaf_ids.contains(#[trigger] left_ids[i]),
            forall|i: int|
                0 <= i < left_ids.len() ==> lookup(self.members, (#[trigger] left_ids[i]).0)
                    != Some(id),
            after.members == without_id(self.members, id),
            after.names.dom().subset_of(self.names.dom()),
            after.children.dom().subset_of(self.children.dom()),
        ensures
            after.sound_over(left_ids, left_names, next),
            forall|m: (Seq<char>, u32)|
                self.members.contains(m) && m.1 != id ==> #[trigger] after.members.contains(m),
            forall|i: int|
                0 <= i < after.members.len() ==> (#[trigger] after.members[i]).1 != id
                    && self.members.contains(after.members[i]),
    {
        without_id_members(self.members, id);
        left_ids_distinct(self.members, id);
        assert forall|i: int| 0 <= i < after.members.len() implies (#[trigger] after.members[i]).1
            < next by {
            let k = choose|k: int| 0 <= k < self.members.len() && self.members[k] == after.members[i];
            assert(self.members[k].1 < next);
        }
        assert forall|i: int| 0 <= i < after.members.len() && left_names.contains_key(
            (#[trigger] after.members[i]).1,
        ) implies after.members[i].0 == lowercase(left_names[after.members[i].1]) by {
            let k = choose|k: int| 0 <= k < self.members.len() && self.members[k] == after.members[i];
            assert(leaf_names.contains_key(self.members[k].1));
        }
        assert forall|m: (Seq<char>, u32)|
            self.members.contains(m) && m.1 != id implies #[trigger] after.members.contains(m) by {
            let k = choose|k: int| 0 <= k < self.members.len() && self.members[k] == m;
            assert(after.members.contains(self.members[k]));
        }
        assert forall|i: int| 0 <= i < left_ids.len() implies after.knows(
            #[trigger] left_ids[i],
            left_names,
        ) by {
            let was = choose|was: int| 0 <= was < leaf_ids.len() && leaf_ids[was] == left_ids[i];
            assert(self.knows(leaf_ids[was], leaf_names));
            let x = lookup(self.members, left_ids[i].0)->0;
            lookup_found(self.members, left_ids[i].0);
            let k = choose|k: int|
                0 <= k < self.members.len() && #[trigger] self.members[k] == (left_ids[i].0, x);
            assert(after.members.contains(self.members[k]));
            let j = choose|j: int| 0 <= j < after.members.len() && after.members[j] == self.members[k];
            lookup_finds(after.members, j);
        }
        assert forall|x: u32| #[trigger] after.names.contains_key(x) implies x < next
            && !left_names.contains_key(x) by {
            assert(self.names.contains_key(x));
        }
        assert forall|x: u32| #[trigger] after.children.contains_key(x) implies x < next
            && !left_names.contains_key(x) by {
            assert(self.children.contains_key(x));
        }
    }

    /// A hierarchy with an aggregate more, under an id that it does not know.
    proof fn takes_aggregate(
        self,
        leaf_ids: Seq<(Seq<char>, u32)>,
        leaf_names: Map<u32, Seq<char>>,
        next: u32,
        name: Seq<char>,
        id: u32,
    )
        requires
            self.sound_over(leaf_ids, leaf_names, next),
            id < next,
            !leaf_names.contains_key(id),
            forall|i: int| 0 <= i < self.members.len() ==> (#[trigger] self.members[i]).1 != id,
            forall|i: int|
                0 <= i < leaf_ids.len() ==> (#[trigger] leaf_ids[i]).0 != lowercase(name),
        ensures
            self.with_aggregate(name, id).sound_over(leaf_ids, leaf_names, next),
            self.with_aggregate(name, id).id_of(name) == Some(id),
            forall|m: (Seq<char>, u32)|
                self.members.contains(m) && m.0 != lowercase(name)
                    ==> #[trigger] self.with_aggregate(name, id).members.contains(m),
            forall|i: int|
                0 <= i < self.with_aggregate(name, id).members.len() ==> (
                #[trigger] self.with_aggregate(name, id).members[i]).1 == id
                    || self.members.contains(self.with_aggregate(name, id).members[i]),
    {
        let key = lowercase(name);
        let after = self.with_aggregate(name, id);
        put_keeps_distinct(self.members, key, id);
        lookup_after_put(self.members, key, id, key);
        place_of_is_first(keys(self.members), key);
        let at = place_of(keys(self.members), key);
        assert forall|i: int| 0 <= i < after.members.len() implies (#[trigger] after.members[i])
            == (key, id) || i < self.members.len() && after.members[i] == self.members[i] by {}
        assert forall|i: int, j: int| 0 <= i < j < after.members.len() implies (
        #[trigger] after.members[i]).1 != (#[trigger] after.members[j]).1 by {
            assert(after.members[i].0 != after.members[j].0);
            if after.members[i] != (key, id) && after.members[j] != (key, id) {
                assert(self.members[i].1 != self.members[j].1);
            }
        }
        assert forall|i: int| 0 <= i < after.members.len() && leaf_names.contains_key(
            (#[trigger] after.members[i]).1,
        ) implies after.members[i].0 == lowercase(leaf_names[after.members[i].1]) by {
            assert(after.members[i] == self.members[i]);
        }
        assert forall|i: int| 0 <= i < leaf_ids.len() implies after.knows(
            #[trigger] leaf_ids[i],
            leaf_names,
        ) by {
            assert(self.knows(leaf_ids[i], leaf_names));
            lookup_after_put(self.members, key, id, leaf_ids[i].0);
        }
        assert forall|m: (Seq<char>, u32)|
            self.members.contains(m) && m.0 != key implies #[trigger] after.members.contains(m) by {
            let k = choose|k: int| 0 <= k < self.members.len() && self.members[k] == m;
            assert(keys(self.members)[k] == self.members[k].0);
            assert(after.members[k] == self.members[k]);
        }
        assert forall|i: int| 0 <= i < after.members.len() implies (#[trigger] after.members[i]).1
            == id || self.members.contains(after.members[i]) by {
            if after.members[i] != (key, id) {
                assert(self.members[i] == after.members[i]);
            }
        }
    }

    /// More ids than there are do no harm.
    proof fn sound_below_more(
        self,
        leaf_ids: Seq<(Seq<char>, u32)>,
        leaf_names: Map<u32, Seq<char>>,
        next: u32,
        more: u32,
    )
        requires
            self.sound_over(leaf_ids, leaf_names, next),
            next <= more,
        ensures
            self.sound_over(leaf_ids, leaf_names, more),
    {
        assert forall|i: int| 0 <= i < self.members.len() implies (#[trigger] self.members[i]).1
            < more by {
            assert(self.members[i].1 < next);
        }
    }

    /// What has the same members and parents as a sound hierarchy is sound.
    proof fn sound_alike(
        self,
        other: Self,
        leaf_ids: Seq<(Seq<char>, u32)>,
        leaf_names: Map<u32, Seq<char>>,
        next: u32,
    )
        requires
            self.sound_over(leaf_ids, leaf_names, next),
            other.members == self.members,
            other.names == self.names,
            forall|id: u32| #[trigger]
                other.children.contains_key(id) ==> self.children.contains_key(id) || (id < next
                    && !leaf_names.contains_key(id)),
        ensures
            other.sound_over(leaf_ids, leaf_names, next),
    {
        assert forall|i: int| 0 <= i < leaf_ids.len() implies other.knows(
            #[trigger] leaf_ids[i],
            leaf_names,
        ) by {
            assert(self.knows(leaf_ids[i], leaf_names));
        }
    }
}

// ---------------------------------------------------------------------------
// The laws
// ---------------------------------------------------------------------------

impl<N: Number> DimensionModel<N> {
    /// A new dimension is sound.
    pub proof fn fresh_is_sound(name: Seq<char>)
        ensures
            Self::fresh(name).sound(),
    {
        let fresh = Self::fresh(name);
        place_of_is_first(keys(fresh.hierarchies), lowercase(name));
        assert(keys(fresh.hierarchies)[0] == lowercase(name));
    }

    /// Nothing in the dimension has that name.
    pub open spec fn unknown(self, name: Seq<char>) -> bool {
        self.leaf(name) is None && forall|p: int|
            0 <= p < self.hierarchies.len() ==> (#[trigger] self.hierarchies[p]).1.id_of(
                name,
            ) is None
    }

    /// What has no id is unknown.
    pub proof fn no_id_is_unknown(self, name: Seq<char>)
        ensures
            self.id_of(name) is None ==> self.unknown(name),
            self.unknown(name) ==> self.id_of(name) is None,
    {
        found_by_name(self.hierarchies, name);
        place_of_is_first(keys(self.hierarchies), lowercase(self.default_hierarchy));
        if self.unknown(name) {
            match self.place(self.default_hierarchy) {
                Some(p) => {
                    assert(self.hierarchies[p].1.id_of(name) is None);
                },
                None => {},
            }
        }
    }

    /// A leaf goes by one id in the dimension and in the default hierarchy, and
    /// that is no aggregate. Another hierarchy has that id for its name, or an
    /// aggregate of its own.
    pub proof fn a_leaf_has_one_id(self, name: Seq<char>, p: int)
        requires
            self.sound(),
            self.leaf(name) is Some,
            0 <= p < self.hierarchies.len(),
        ensures
            self.hierarchies[p].1.id_of(name) matches Some(id) && (Some(id) == self.leaf(name)
                || !self.leaf_names.contains_key(id)),
            self.id_in(None, name) == self.leaf(name),
            self.id_of(name) == self.leaf(name),
            self.leaf_names.contains_key(self.leaf(name)->0),
            !self.is_aggregate(self.leaf(name)->0),
    {
        let key = lowercase(name);
        let h = self.hierarchies[p].1;
        assert(h.sound_over(self.leaf_ids, self.leaf_names, self.next_id));
        lookup_found(self.leaf_ids, key);
        let at = choose|at: int|
            0 <= at < self.leaf_ids.len() && #[trigger] self.leaf_ids[at] == (
                key,
                self.leaf(name)->0,
            );
        assert(h.knows(self.leaf_ids[at], self.leaf_names));
        assert(self.leaf_names.contains_key(self.leaf_ids[at].1));
        let q = self.place(self.default_hierarchy)->0;
        place_of_is_first(keys(self.hierarchies), lowercase(self.default_hierarchy));
        let default = self.hierarchies[q].1;
        assert(default.sound_over(self.leaf_ids, self.leaf_names, self.next_id));
        assert(default.members.contains(self.leaf_ids[at]));
        let k = choose|k: int|
            0 <= k < default.members.len() && default.members[k] == self.leaf_ids[at];
        lookup_finds(default.members, k);
    }

    /// An id that a hierarchy knows under the name of no leaf, or not of that
    /// leaf, is no leaf's.
    pub proof fn other_names_are_no_leaves(self, p: int, name: Seq<char>)
        requires
            self.sound(),
            0 <= p < self.hierarchies.len(),
            self.hierarchies[p].1.id_of(name) is Some,
            self.hierarchies[p].1.id_of(name) != self.leaf(name),
        ensures
            !self.leaf_names.contains_key(self.hierarchies[p].1.id_of(name)->0),
            self.hierarchies[p].1.id_of(name)->0 < self.next_id,
    {
        let key = lowercase(name);
        let h = self.hierarchies[p].1;
        let id = h.id_of(name)->0;
        assert(h.sound_over(self.leaf_ids, self.leaf_names, self.next_id));
        lookup_found(h.members, key);
        let at = choose|at: int| 0 <= at < h.members.len() && #[trigger] h.members[at] == (key, id);
        if self.leaf_names.contains_key(id) {
            assert(h.members[at].0 == lowercase(self.leaf_names[id]));
            let k = choose|k: int|
                0 <= k < self.leaf_ids.len() && self.leaf_ids[k] == (
                    lowercase(self.leaf_names[id]),
                    id,
                );
            lookup_finds(self.leaf_ids, k);
        }
    }

    /// The name is that of a leaf, or of no member of the default hierarchy.
    pub open spec fn names_leaf(self, name: Seq<char>) -> bool {
        self.leaf(name) is Some || self.id_in(None, name) is None
    }

    /// Adding a leaf keeps a dimension sound while there are ids left. Where the
    /// name is that of no aggregate of the default hierarchy, the leaf is then in
    /// the bank under the id that is returned; else nothing changes.
    pub proof fn adding_a_leaf_keeps_sound(self, name: Seq<char>)
        requires
            self.sound(),
            self.next_id < u32::MAX,
        ensures
            self.leaf_added(name).0.sound(),
            self.names_leaf(name) ==> self.leaf_added(name).0.leaf(name) == Some(
                self.leaf_added(name).1,
            ) && self.leaf_added(name).0.leaf_names.contains_key(self.leaf_added(name).1),
            !self.names_leaf(name) ==> self.leaf_added(name).0 == self && self.id_in(None, name)
                == Some(self.leaf_added(name).1),
            forall|id: u32| #[trigger]
                self.leaf_names.contains_key(id) ==> self.leaf_added(name).0.leaf_names.contains_key(
                    id,
                ) && self.leaf_added(name).0.leaf_names[id] == self.leaf_names[id],
    {
        let (after, id) = self.leaf_added(name);
        let key = lowercase(name);
        lookup_found(self.leaf_ids, key);
        if self.leaf(name) is None && self.id_in(None, name) is None {
            bank_grows(self.leaf_ids, self.leaf_names, self.next_id, name);
            lookup_finds(after.leaf_ids, self.leaf_ids.len() as int);
            assert forall|p: int| 0 <= p < after.hierarchies.len() implies (
            #[trigger] after.hierarchies[p]).1.sound_over(
                after.leaf_ids,
                after.leaf_names,
                after.next_id,
            ) by {
                assert(self.hierarchies[p].1.sound_over(
                    self.leaf_ids,
                    self.leaf_names,
                    self.next_id,
                ));
                if self.hierarchies[p].1.id_of(name) is Some {
                    self.other_names_are_no_leaves(p, name);
                }
                self.hierarchies[p].1.takes_leaf(
                    self.leaf_ids,
                    self.leaf_names,
                    self.next_id,
                    name,
                );
            }
            assert(keys(after.hierarchies) =~= keys(self.hierarchies));
            place_of_is_first(keys(self.hierarchies), lowercase(self.default_hierarchy));
            let q = self.place(self.default_hierarchy)->0;
            assert(self.hierarchies[q].1.sound_over(
                self.leaf_ids,
                self.leaf_names,
                self.next_id,
            ));
            self.hierarchies[q].1.takes_leaf(
                self.leaf_ids,
                self.leaf_names,
                self.next_id,
                name,
            );
            assert forall|i: int| 0 <= i < after.leaf_ids.len() implies after.hierarchies[q].1.members.contains(
                #[trigger] after.leaf_ids[i],
            ) by {
                if i < self.leaf_ids.len() {
                    assert(self.hierarchies[q].1.members.contains(self.leaf_ids[i]));
                }
            }
            assert forall|a: int, b: int, i: int, j: int|
                #![trigger after.hierarchies[a].1.members[i], after.hierarchies[b].1.members[j]]
                0 <= a < b < after.hierarchies.len() && 0 <= i
                    < after.hierarchies[a].1.members.len() && 0 <= j
                    < after.hierarchies[b].1.members.len() && after.hierarchies[a].1.members[i].1
                    == after.hierarchies[b].1.members[j].1 implies after.leaf_names.contains_key(
                after.hierarchies[a].1.members[i].1,
            ) by {
                let x = self.hierarchies[a].1.members;
                let y = self.hierarchies[b].1.members;
                assert(self.hierarchies[a].1.sound_over(
                    self.leaf_ids,
                    self.leaf_names,
                    self.next_id,
                ));
                assert(self.hierarchies[b].1.sound_over(
                    self.leaf_ids,
                    self.leaf_names,
                    self.next_id,
                ));
                if i < x.len() && j < y.len() {
                    assert(after.hierarchies[a].1.members[i] == x[i]);
                    assert(after.hierarchies[b].1.members[j] == y[j]);
                    assert(self.leaf_names.contains_key(x[i].1));
                }
            }
            assert forall|x: u32| #[trigger]
                after.leaf_names.contains_key(x) implies !after.is_aggregate(x) by {
                if x != id {
                    assert(self.leaf_names.contains_key(x));
                }
            }
            assert forall|x: u32| #[trigger]
                self.leaf_names.contains_key(x) implies after.leaf_names.contains_key(x)
                && after.leaf_names[x] == self.leaf_names[x] by {}
        } else if self.leaf(name) is Some {
            let k = choose|k: int|
                0 <= k < self.leaf_ids.len() && #[trigger] self.leaf_ids[k] == (key, id);
            assert(self.leaf_names.contains_key(self.leaf_ids[k].1));
        }
    }

    /// Creating a hierarchy keeps a dimension sound. The new hierarchy knows
    /// every leaf.
    pub proof fn creating_a_hierarchy_keeps_sound(self, name: Seq<char>)
        requires
            self.sound(),
        ensures
            self.hierarchy_created(name).0.sound(),
    {
        if self.hierarchy(name) is None {
            let after = self.hierarchy_created(name).0;
            let ids = in_turn(self.leaves());
            in_turn_lists(self.leaves());
            let fresh = HierarchyModel::<N>::fresh(name);
            assert forall|i: int| 0 <= i < ids.len() implies self.leaf_names.contains_key(
                #[trigger] ids[i],
            ) by {
                assert(ids.to_set().contains(ids[i]));
            }
            self.leaves_taken_in_turn(fresh, ids);
            let made = with_leaves(fresh, self.leaf_names, ids);
            let new = made.rebuilt();
            assert forall|i: int| 0 <= i < new.members.len() implies (
            #[trigger] new.members[i]).1 < self.next_id by {
                assert(new.members[i] == (lowercase(self.leaf_names[ids[i]]), ids[i]));
                assert(self.leaf_names.contains_key(ids[i]));
            }
            assert forall|i: int, j: int| 0 <= i < j < new.members.len() implies (
            #[trigger] new.members[i]).0 != (#[trigger] new.members[j]).0 by {
                assert(self.leaf_names.contains_key(ids[i]));
                assert(self.leaf_names.contains_key(ids[j]));
                assert(ids[i] < ids[j]);
                if new.members[i].0 == new.members[j].0 {
                    bank_is_one_to_one(
                        self.leaf_ids,
                        self.leaf_names,
                        self.next_id,
                        ids[i],
                        ids[j],
                    );
                }
            }
            assert forall|i: int, j: int| 0 <= i < j < new.members.len() implies (
            #[trigger] new.members[i]).1 != (#[trigger] new.members[j]).1 by {
                assert(ids[i] < ids[j]);
            }
            assert forall|i: int| 0 <= i < self.leaf_ids.len() implies new.knows(
                #[trigger] self.leaf_ids[i],
                self.leaf_names,
            ) by {
                let id = self.leaf_ids[i].1;
                assert(self.leaf_names.contains_key(id));
                assert(ids.to_set().contains(id));
                let k = choose|k: int| 0 <= k < ids.len() && ids[k] == id;
                assert(new.members[k] == (lowercase(self.leaf_names[ids[k]]), ids[k]));
                lookup_finds(new.members, k);
            }
            assert(new.sound_over(self.leaf_ids, self.leaf_names, self.next_id));
            assert(keys(after.hierarchies).drop_last() =~= keys(self.hierarchies));
            place_of_is_first(keys(self.hierarchies), lowercase(self.default_hierarchy));
            assert forall|i: int| 0 <= i < after.leaf_ids.len() implies after.hierarchies[self.place(
                self.default_hierarchy,
            )->0].1.members.contains(#[trigger] after.leaf_ids[i]) by {
                assert(self.leaf_ids[i] == after.leaf_ids[i]);
            }
            assert forall|p: int| 0 <= p < after.hierarchies.len() implies (
            #[trigger] after.hierarchies[p]).1.sound_over(
                after.leaf_ids,
                after.leaf_names,
                after.next_id,
            ) by {
                if p < self.hierarchies.len() {
                    assert(self.hierarchies[p].1.sound_over(
                        self.leaf_ids,
                        self.leaf_names,
                        self.next_id,
                    ));
                }
            }
            assert forall|a: int, b: int, i: int, j: int|
                #![trigger after.hierarchies[a].1.members[i], after.hierarchies[b].1.members[j]]
                0 <= a < b < after.hierarchies.len() && 0 <= i
                    < after.hierarchies[a].1.members.len() && 0 <= j
                    < after.hierarchies[b].1.members.len() && after.hierarchies[a].1.members[i].1
                    == after.hierarchies[b].1.members[j].1 implies after.leaf_names.contains_key(
                after.hierarchies[a].1.members[i].1,
            ) by {
                let x = self.hierarchies[a].1.members;
                assert(after.hierarchies[a] == self.hierarchies[a]);
                if b < self.hierarchies.len() {
                    assert(after.hierarchies[b] == self.hierarchies[b]);
                    assert(x[i].1 == self.hierarchies[b].1.members[j].1);
                } else {
                    assert(new.members[j] == (lowercase(self.leaf_names[ids[j]]), ids[j]));
                    assert(self.leaf_names.contains_key(ids[j]));
                }
            }
            assert forall|id: u32| #[trigger]
                after.leaf_names.contains_key(id) implies !after.is_aggregate(id) by {
                assert(self.leaf_names.contains_key(id));
            }
        }
    }

    /// A hierarchy without members takes the leaves in their order.
    proof fn leaves_taken_in_turn(self, fresh: HierarchyModel<N>, ids: Seq<u32>)
        requires
            bank_sound(self.leaf_ids, self.leaf_names, self.next_id),
            fresh.members.len() == 0,
            ascending(ids),
            forall|i: int| 0 <= i < ids.len() ==> self.leaf_names.contains_key(#[trigger] ids[i]),
        ensures
            with_leaves(fresh, self.leaf_names, ids).members.len() == ids.len(),
            forall|i: int|
                0 <= i < ids.len() ==> #[trigger] with_leaves(
                    fresh,
                    self.leaf_names,
                    ids,
                ).members[i] == (lowercase(self.leaf_names[ids[i]]), ids[i]),
            with_leaves(fresh, self.leaf_names, ids).names == fresh.names,
            with_leaves(fresh, self.leaf_names, ids).children == fresh.children,
        decreases ids.len(),
    {
        if ids.len() > 0 {
            let rest = ids.drop_last();
            assert forall|i: int| 0 <= i < rest.len() implies self.leaf_names.contains_key(
                #[trigger] rest[i],
            ) by {
                assert(rest[i] == ids[i]);
            }
            self.leaves_taken_in_turn(fresh, rest);
            let before = with_leaves(fresh, self.leaf_names, rest);
            let last = ids.last();
            assert(self.leaf_names.contains_key(ids[ids.len() - 1]));
            let key = lowercase(self.leaf_names[last]);
            lookup_found(before.members, key);
            if before.id_of(self.leaf_names[last]) is Some {
                let k = choose|k: int|
                    0 <= k < before.members.len() && #[trigger] before.members[k] == (
                        key,
                        before.id_of(self.leaf_names[last])->0,
                    );
                assert(rest[k] == ids[k]);
                assert(self.leaf_names.contains_key(rest[k]));
                assert(ids[k] < ids[ids.len() - 1]);
                bank_is_one_to_one(self.leaf_ids, self.leaf_names, self.next_id, rest[k], last);
            }
            assert forall|i: int| 0 <= i < ids.len() implies #[trigger] with_leaves(
                fresh,
                self.leaf_names,
                ids,
            ).members[i] == (lowercase(self.leaf_names[ids[i]]), ids[i]) by {
                if i < rest.len() {
                    assert(before.members[i] == (lowercase(self.leaf_names[rest[i]]), rest[i]));
                }
            }
        }
    }

    /// Adding an aggregate keeps a dimension sound while there are ids left.
    /// Where it succeeds, the id that is returned is that of an aggregate of
    /// the hierarchy, and no leaf. A member that the hierarchy knew has kept its
    /// id; a leaf has left the bank.
    pub proof fn adding_an_aggregate_keeps_sound(
        self,
        hierarchy: Option<Seq<char>>,
        name: Seq<char>,
    )
        requires
            self.sound(),
            self.next_id < u32::MAX,
        ensures
            self.aggregate_added(hierarchy, name).0.sound(),
            self.aggregate_added(hierarchy, name).1 matches Ok(id) ==> {
                let after = self.aggregate_added(hierarchy, name).0;
                &&& after.consolidated_in(hierarchy, name)
                &&& after.id_in(hierarchy, name) == Some(id)
                &&& !after.leaf_names.contains_key(id)
                &&& id < after.next_id
                &&& self.consolidated_in(hierarchy, name) ==> after == self
                &&& self.id_in(hierarchy, name) is Some ==> self.id_in(hierarchy, name) == Some(id)
                &&& self.id_in(hierarchy, name) == self.leaf(name) ==> after.leaf(name) is None
            },
            self.aggregate_added(hierarchy, name).0.next_id <= self.next_id + 1,
            self.aggregate_added(hierarchy, name).0.hierarchies.len() == self.hierarchies.len(),
            self.aggregate_added(hierarchy, name).0.default_hierarchy == self.default_hierarchy,
            keys(self.aggregate_added(hierarchy, name).0.hierarchies) == keys(self.hierarchies),
    {
        let named = self.hierarchy_named(hierarchy);
        let after = self.aggregate_added(hierarchy, name).0;
        place_of_is_first(keys(self.hierarchies), lowercase(named));
        assert(keys(after.hierarchies) =~= keys(self.hierarchies));
        match self.place(named) {
            None => {},
            Some(p) => {
                let h = self.hierarchies[p].1;
                assert(h.sound_over(self.leaf_ids, self.leaf_names, self.next_id));
                let here = h.id_of(name);
                lookup_found(h.members, lowercase(name));
                if self.leaf(name) is Some {
                    self.a_leaf_has_one_id(name, p);
                }
                if here is Some && (self.is_aggregate(here->0) || self.leaf(name) != here) {
                    self.other_names_are_no_leaves(p, name);
                    if self.is_aggregate(here->0) {
                        assert(after.types =~= self.types);
                    }
                    assert forall|x: u32| #[trigger]
                        after.leaf_names.contains_key(x) implies !after.is_aggregate(x) by {
                        assert(self.leaf_names.contains_key(x));
                    }
                    assert forall|i: int| 0 <= i < after.leaf_ids.len() implies after.hierarchies[
                        self.place(self.default_hierarchy)->0
                    ].1.members.contains(#[trigger] after.leaf_ids[i]) by {
                        assert(self.leaf_ids[i] == after.leaf_ids[i]);
                    }
                    assert(after.sound());
                } else {
                    match self.leaf(name) {
                        Some(id) => {
                            self.promoting_keeps_sound(p, name, id);
                        },
                        None => {
                            self.new_aggregate_keeps_sound(p, name);
                        },
                    }
                }
            },
        }
    }

    /// A new aggregate keeps a dimension sound while there are ids left.
    pub proof fn new_aggregate_keeps_sound(self, p: int, name: Seq<char>)
        requires
            self.sound(),
            self.next_id < u32::MAX,
            0 <= p < self.hierarchies.len(),
            self.leaf(name) is None,
        ensures
            self.aggregate_made(p, name).sound(),
            keys(self.aggregate_made(p, name).hierarchies) == keys(self.hierarchies),
            self.aggregate_made(p, name).hierarchies[p].1.id_of(name) == Some(self.next_id),
            !self.leaf_names.contains_key(self.next_id),
    {
        let id = self.next_id;
        let next = after_id(id);
        let after = self.aggregate_made(p, name);
        let h = self.hierarchies[p].1;
        assert(h.sound_over(self.leaf_ids, self.leaf_names, self.next_id));
        lookup_found(self.leaf_ids, lowercase(name));
        assert(!self.leaf_names.contains_key(id));
        h.sound_below_more(self.leaf_ids, self.leaf_names, id, next);
        h.takes_aggregate(self.leaf_ids, self.leaf_names, next, name, id);
        assert forall|q: int| 0 <= q < after.hierarchies.len() implies (
        #[trigger] after.hierarchies[q]).1.sound_over(
            after.leaf_ids,
            after.leaf_names,
            after.next_id,
        ) by {
            if q != p {
                assert(self.hierarchies[q].1.sound_over(self.leaf_ids, self.leaf_names, id));
                self.hierarchies[q].1.sound_below_more(self.leaf_ids, self.leaf_names, id, next);
            }
        }
        assert(bank_sound(after.leaf_ids, after.leaf_names, next));
        self.still_only_leaves_shared(after, p, id);
        assert(keys(after.hierarchies) =~= keys(self.hierarchies));
        place_of_is_first(keys(self.hierarchies), lowercase(self.default_hierarchy));
        let d = self.place(self.default_hierarchy)->0;
        assert forall|i: int| 0 <= i < after.leaf_ids.len() implies after.hierarchies[d].1.members.contains(
            #[trigger] after.leaf_ids[i],
        ) by {
            assert(self.leaf_ids[i].0 != lowercase(name));
            assert(self.hierarchies[d].1.members.contains(self.leaf_ids[i]));
        }
        assert forall|x: u32| #[trigger]
            after.leaf_names.contains_key(x) implies !after.is_aggregate(x) by {
            assert(self.leaf_names.contains_key(x));
        }
    }

    /// A member that one hierarchy has gained and no other has.
    proof fn still_only_leaves_shared(self, after: Self, p: int, id: u32)
        requires
            only_leaves_shared(self.hierarchies, self.leaf_names),
            0 <= p < self.hierarchies.len(),
            after.hierarchies.len() == self.hierarchies.len(),
            forall|q: int, i: int|
                #![trigger after.hierarchies[q].1.members[i]]
                0 <= q < after.hierarchies.len() && 0 <= i < after.hierarchies[q].1.members.len()
                    ==> (q == p && after.hierarchies[q].1.members[i].1 == id) || (
                after.hierarchies[q].1.members[i].1 != id && self.hierarchies[q].1.members.contains(
                    after.hierarchies[q].1.members[i],
                )),
            forall|x: u32| #[trigger]
                self.leaf_names.contains_key(x) && x != id ==> after.leaf_names.contains_key(x),
        ensures
            only_leaves_shared(after.hierarchies, after.leaf_names),
    {
        assert forall|a: int, b: int, i: int, j: int|
            #![trigger after.hierarchies[a].1.members[i], after.hierarchies[b].1.members[j]]
            0 <= a < b < after.hierarchies.len() && 0 <= i < after.hierarchies[a].1.members.len()
                && 0 <= j < after.hierarchies[b].1.members.len()
                && after.hierarchies[a].1.members[i].1
                == after.hierarchies[b].1.members[j].1 implies after.leaf_names.contains_key(
            after.hierarchies[a].1.members[i].1,
        ) by {
            let x = after.hierarchies[a].1.members[i];
            let y = after.hierarchies[b].1.members[j];
            let was_x = self.hierarchies[a].1.members;
            let was_y = self.hierarchies[b].1.members;
            assert(x.1 != id);
            let k = choose|k: int| 0 <= k < was_x.len() && was_x[k] == x;
            let l = choose|l: int| 0 <= l < was_y.len() && was_y[l] == y;
            assert(self.hierarchies[a].1.members[k].1 == self.hierarchies[b].1.members[l].1);
            assert(self.leaf_names.contains_key(x.1));
        }
    }

    proof fn promoting_keeps_sound(self, p: int, name: Seq<char>, id: u32)
        requires
            self.sound(),
            0 <= p < self.hierarchies.len(),
            self.leaf(name) == Some(id),
        ensures
            self.promoted(p, name, id).sound(),
            self.promoted(p, name, id).hierarchies[p].1.id_of(name) == Some(id),
            self.promoted(p, name, id).leaf(name) is None,
            id < self.next_id,
    {
        let key = lowercase(name);
        let after = self.promoted(p, name, id);
        let rest = each(self.hierarchies, |h: HierarchyModel<N>| h.without_alias(id));
        bank_shrinks(self.leaf_ids, self.leaf_names, self.next_id, key, id);
        without_key_members(self.leaf_ids, key);
        let d = self.place(self.default_hierarchy)->0;
        place_of_is_first(keys(self.hierarchies), lowercase(self.default_hierarchy));
        assert(keys(after.hierarchies) =~= keys(self.hierarchies));
        let original = self.leaf_names[id];
        lookup_found(after.leaf_ids, key);
        assert forall|q: int| 0 <= q < rest.len() implies (#[trigger] rest[q]).1.sound_over(
            after.leaf_ids,
            after.leaf_names,
            after.next_id,
        ) && forall|i: int|
            0 <= i < rest[q].1.members.len() ==> (#[trigger] rest[q].1.members[i]).1 != id
                && self.hierarchies[q].1.members.contains(rest[q].1.members[i]) by {
            let h = self.hierarchies[q].1;
            assert(h.sound_over(self.leaf_ids, self.leaf_names, self.next_id));
            if h.names.contains_key(id) {
                assert(!self.leaf_names.contains_key(id));
            }
            self.no_other_leaf_has_the_id(after.leaf_ids, q, key, id);
            h.loses_id(
                self.leaf_ids,
                self.leaf_names,
                self.next_id,
                after.leaf_ids,
                after.leaf_names,
                id,
                h.without_alias(id),
            );
        }
        assert(rest[p].1.sound_over(after.leaf_ids, after.leaf_names, after.next_id));
        rest[p].1.takes_aggregate(
            after.leaf_ids,
            after.leaf_names,
            after.next_id,
            original,
            id,
        );
        let now = after.hierarchies[p].1;
        assert forall|q: int| 0 <= q < after.hierarchies.len() implies (
        #[trigger] after.hierarchies[q]).1.sound_over(
            after.leaf_ids,
            after.leaf_names,
            after.next_id,
        ) by {
            if q != p {
                assert(after.hierarchies[q] == rest[q]);
            }
        }
        assert forall|q: int, i: int|
            #![trigger after.hierarchies[q].1.members[i]]
            0 <= q < after.hierarchies.len() && 0 <= i
                < after.hierarchies[q].1.members.len() implies (q == p
            && after.hierarchies[q].1.members[i].1 == id) || (after.hierarchies[q].1.members[i].1
            != id && self.hierarchies[q].1.members.contains(after.hierarchies[q].1.members[i])) by {
            let m = after.hierarchies[q].1.members[i];
            if q == p {
                assert(now.members[i] == m);
                if m.1 != id {
                    assert(rest[p].1.members.contains(m));
                    let k = choose|k: int|
                        0 <= k < rest[p].1.members.len() && rest[p].1.members[k] == m;
                    assert(rest[p].1.members[k].1 != id);
                }
            } else {
                assert(after.hierarchies[q] == rest[q]);
                assert(rest[q].1.members[i] == m);
            }
        }
        self.still_only_leaves_shared(after, p, id);
        assert forall|i: int| 0 <= i < after.leaf_ids.len() implies after.hierarchies[d].1.members.contains(
            #[trigger] after.leaf_ids[i],
        ) by {
            let h = self.hierarchies[d].1;
            let leaf = after.leaf_ids[i];
            let k = choose|k: int| 0 <= k < self.leaf_ids.len() && self.leaf_ids[k] == leaf;
            assert(h.members.contains(self.leaf_ids[k]));
            assert(after.leaf_names.contains_key(after.leaf_ids[i].1));
            assert(h.sound_over(self.leaf_ids, self.leaf_names, self.next_id));
            self.no_other_leaf_has_the_id(after.leaf_ids, d, key, id);
            h.loses_id(
                self.leaf_ids,
                self.leaf_names,
                self.next_id,
                after.leaf_ids,
                after.leaf_names,
                id,
                h.without_alias(id),
            );
            assert(rest[d].1.members.contains(leaf));
        }
        assert forall|x: u32| #[trigger]
            after.leaf_names.contains_key(x) implies !after.is_aggregate(x) by {
            assert(self.leaf_names.contains_key(x));
        }
    }

    /// The leaves that are left are under other ids.
    proof fn no_other_leaf_has_the_id(
        self,
        left: Seq<(Seq<char>, u32)>,
        q: int,
        key: Seq<char>,
        id: u32,
    )
        requires
            self.sound(),
            lookup(self.leaf_ids, key) == Some(id),
            left == without_key(self.leaf_ids, key),
            0 <= q < self.hierarchies.len(),
        ensures
            forall|i: int|
                0 <= i < left.len() ==> lookup(
                    self.hierarchies[q].1.members,
                    (#[trigger] left[i]).0,
                ) != Some(id),
    {
        let h = self.hierarchies[q].1;
        assert(h.sound_over(self.leaf_ids, self.leaf_names, self.next_id));
        bank_shrinks(self.leaf_ids, self.leaf_names, self.next_id, key, id);
        without_key_members(self.leaf_ids, key);
        assert forall|i: int| 0 <= i < left.len() implies lookup(
            h.members,
            (#[trigger] left[i]).0,
        ) != Some(id) by {
            if lookup(h.members, left[i].0) == Some(id) {
                h.leaf_goes_by_its_name(
                    self.leaf_ids,
                    self.leaf_names,
                    self.next_id,
                    left[i].0,
                    id,
                );
            }
        }
    }

    /// One hierarchy changed that has kept its members.
    proof fn tree_changes_keep_sound(self, p: int, h: HierarchyModel<N>, after: Self)
        requires
            self.sound(),
            0 <= p < self.hierarchies.len(),
            h.members == self.hierarchies[p].1.members,
            h.names == self.hierarchies[p].1.names,
            forall|id: u32| #[trigger]
                h.children.contains_key(id) ==> self.hierarchies[p].1.children.contains_key(id) || (
                id < self.next_id && !self.leaf_names.contains_key(id)),
            after.hierarchies == set_at(self.hierarchies, p, h),
            after.default_hierarchy == self.default_hierarchy,
            after.leaf_ids == self.leaf_ids,
            after.leaf_names == self.leaf_names,
            after.next_id == self.next_id,
            forall|id: u32| #[trigger]
                self.leaf_names.contains_key(id) ==> (after.is_aggregate(id) ==> self.is_aggregate(
                    id,
                )),
        ensures
            after.sound(),
    {
        assert(self.hierarchies[p].1.sound_over(self.leaf_ids, self.leaf_names, self.next_id));
        self.hierarchies[p].1.sound_alike(h, self.leaf_ids, self.leaf_names, self.next_id);
        assert(keys(after.hierarchies) =~= keys(self.hierarchies));
        place_of_is_first(keys(self.hierarchies), lowercase(self.default_hierarchy));
        let d = self.place(self.default_hierarchy)->0;
        assert(after.hierarchies[d].1.members == self.hierarchies[d].1.members);
        assert forall|q: int| 0 <= q < after.hierarchies.len() implies (
        #[trigger] after.hierarchies[q]).1.sound_over(
            after.leaf_ids,
            after.leaf_names,
            after.next_id,
        ) by {
            if q != p {
                assert(after.hierarchies[q] == self.hierarchies[q]);
            }
        }
        assert forall|a: int, b: int, i: int, j: int|
            #![trigger after.hierarchies[a].1.members[i], after.hierarchies[b].1.members[j]]
            0 <= a < b < after.hierarchies.len() && 0 <= i < after.hierarchies[a].1.members.len()
                && 0 <= j < after.hierarchies[b].1.members.len()
                && after.hierarchies[a].1.members[i].1
                == after.hierarchies[b].1.members[j].1 implies after.leaf_names.contains_key(
            after.hierarchies[a].1.members[i].1,
        ) by {
            assert(self.hierarchies[a].1.members[i] == after.hierarchies[a].1.members[i]);
            assert(self.hierarchies[b].1.members[j] == after.hierarchies[b].1.members[j]);
        }
        assert forall|id: u32| #[trigger]
            after.leaf_names.contains_key(id) implies !after.is_aggregate(id) by {
            assert(self.leaf_names.contains_key(id));
        }
    }

    /// Putting a child under a parent keeps a dimension sound while there are
    /// ids left for both.
    pub proof fn adding_a_component_keeps_sound(
        self,
        hierarchy: Option<Seq<char>>,
        parent: Seq<char>,
        child: Seq<char>,
        weight: N,
    )
        requires
            self.sound(),
            self.next_id < u32::MAX - 1,
        ensures
            self.component_added(hierarchy, parent, child, weight).0.sound(),
    {
        let named = self.hierarchy_named(hierarchy);
        place_of_is_first(keys(self.hierarchies), lowercase(named));
        match self.place(named) {
            None => {},
            Some(p) => {
                self.adding_an_aggregate_keeps_sound(Some(named), parent);
                match self.aggregate_added(Some(named), parent) {
                    (with_parent, Err(_)) => {},
                    (with_parent, Ok(parent_id)) => {
                        with_parent.adding_a_leaf_keeps_sound(child);
                        with_parent.leaf_added_spares(child, parent_id);
                        if with_parent.leaf(child) is None {
                            with_parent.new_aggregate_keeps_sound(p, child);
                        }
                        let (with_child, child_id) = with_parent.child_found(p, child);
                        assert(with_child.sound());
                        let before = with_child.hierarchies[p].1;
                        let linked = before.linked(parent_id, child_id, weight);
                        assert forall|id: u32| #[trigger]
                            linked.children.contains_key(id) implies before.children.contains_key(
                            id,
                        ) || (id < with_child.next_id && !with_child.leaf_names.contains_key(id)) by {
                            assert(with_child.next_id >= with_parent.next_id);
                        }
                        with_child.tree_changes_keep_sound(
                            p,
                            linked,
                            with_child.component_linked(p, parent_id, child_id, weight).0,
                        );
                    },
                }
            },
        }
    }

    /// A new leaf takes no id that is in use.
    proof fn leaf_added_spares(self, name: Seq<char>, id: u32)
        requires
            self.sound(),
            self.next_id < u32::MAX,
            id < self.next_id,
            !self.leaf_names.contains_key(id),
        ensures
            !self.leaf_added(name).0.leaf_names.contains_key(id),
            self.leaf_added(name).0.next_id >= self.next_id,
            self.leaf_added(name).0.hierarchies.len() == self.hierarchies.len(),
    {
    }

    /// Taking a child from under a parent keeps a dimension sound.
    pub proof fn removing_a_component_keeps_sound(
        self,
        hierarchy: Option<Seq<char>>,
        parent: Seq<char>,
        child: Seq<char>,
    )
        requires
            self.sound(),
        ensures
            self.component_removed(hierarchy, parent, child).0.sound(),
    {
        let named = self.hierarchy_named(hierarchy);
        place_of_is_first(keys(self.hierarchies), lowercase(named));
        let after = self.component_removed(hierarchy, parent, child).0;
        match self.place(named) {
            None => {},
            Some(p) => {
                let h = self.hierarchies[p].1;
                if self.component_removed(hierarchy, parent, child).1 is Ok {
                    let parent_id = h.id_of(parent)->0;
                    let child_id = h.id_of(child)->0;
                    let cut = HierarchyModel { children: h.cut(parent_id, child_id), ..h };
                    self.tree_changes_keep_sound(p, cut.detached(child_id), after);
                }
            },
        }
    }

    /// Putting a member elsewhere among its siblings keeps a dimension sound.
    pub proof fn moving_a_member_keeps_sound(
        self,
        hierarchy: Option<Seq<char>>,
        name: Seq<char>,
        reference: Seq<char>,
    )
        requires
            self.sound(),
        ensures
            self.moved_before(hierarchy, name, reference).0.sound(),
            self.moved_to_front(hierarchy, name).0.sound(),
    {
        let named = self.hierarchy_named(hierarchy);
        place_of_is_first(keys(self.hierarchies), lowercase(named));
        match self.place(named) {
            None => {},
            Some(p) => {
                let h = self.hierarchies[p].1;
                match h.id_of(name) {
                    Some(id) => {
                        self.tree_changes_keep_sound(
                            p,
                            h.moved_to_front(id),
                            self.moved_to_front(hierarchy, name).0,
                        );
                        match h.id_of(reference) {
                            Some(other) => {
                                if h.siblings(id, other) {
                                    self.tree_changes_keep_sound(
                                        p,
                                        h.moved_before(id, other),
                                        self.moved_before(hierarchy, name, reference).0,
                                    );
                                }
                            },
                            None => {},
                        }
                    },
                    None => {},
                }
            },
        }
    }

    /// Another default member, or display orders brought up to date, keep a
    /// dimension sound.
    pub proof fn upkeep_keeps_sound(self, hierarchy: Option<Seq<char>>, name: Seq<char>)
        requires
            self.sound(),
        ensures
            self.default_set(name).0.sound(),
            self.ensured_in(hierarchy).sound(),
            self.ensured().sound(),
            self.rebuilt().sound(),
    {
        let named = self.hierarchy_named(hierarchy);
        place_of_is_first(keys(self.hierarchies), lowercase(named));
        match self.place(named) {
            None => {},
            Some(p) => {
                self.tree_changes_keep_sound(
                    p,
                    self.hierarchies[p].1.ensured(),
                    self.ensured_in(hierarchy),
                );
            },
        }
        let changed = self.default_set(name).0;
        assert(keys(self.ensured().hierarchies) =~= keys(self.hierarchies));
        assert(keys(self.rebuilt().hierarchies) =~= keys(self.hierarchies));
        self.same_members_sound(changed);
        self.same_members_sound(self.ensured());
        self.same_members_sound(self.rebuilt());
    }

    proof fn same_members_sound(self, after: Self)
        requires
            self.sound(),
            after.leaf_ids == self.leaf_ids,
            after.leaf_names == self.leaf_names,
            after.next_id == self.next_id,
            after.types == self.types,
            after.default_hierarchy == self.default_hierarchy,
            keys(after.hierarchies) == keys(self.hierarchies),
            after.hierarchies.len() == self.hierarchies.len(),
            forall|q: int|
                0 <= q < self.hierarchies.len() ==> (#[trigger] after.hierarchies[q]).1.members
                    == self.hierarchies[q].1.members && after.hierarchies[q].1.names
                    == self.hierarchies[q].1.names && after.hierarchies[q].1.children
                    == self.hierarchies[q].1.children,
        ensures
            after.sound(),
    {
        place_of_is_first(keys(self.hierarchies), lowercase(self.default_hierarchy));
        let d = self.place(self.default_hierarchy)->0;
        assert(after.hierarchies[d].1.members == self.hierarchies[d].1.members);
        assert forall|q: int| 0 <= q < after.hierarchies.len() implies (
        #[trigger] after.hierarchies[q]).1.sound_over(
            after.leaf_ids,
            after.leaf_names,
            after.next_id,
        ) by {
            assert(self.hierarchies[q].1.sound_over(self.leaf_ids, self.leaf_names, self.next_id));
            self.hierarchies[q].1.sound_alike(
                after.hierarchies[q].1,
                self.leaf_ids,
                self.leaf_names,
                self.next_id,
            );
        }
        assert forall|a: int, b: int, i: int, j: int|
            #![trigger after.hierarchies[a].1.members[i], after.hierarchies[b].1.members[j]]
            0 <= a < b < after.hierarchies.len() && 0 <= i < after.hierarchies[a].1.members.len()
                && 0 <= j < after.hierarchies[b].1.members.len()
                && after.hierarchies[a].1.members[i].1
                == after.hierarchies[b].1.members[j].1 implies after.leaf_names.contains_key(
            after.hierarchies[a].1.members[i].1,
        ) by {
            assert(after.hierarchies[a].1.members == self.hierarchies[a].1.members);
            assert(after.hierarchies[b].1.members == self.hierarchies[b].1.members);
            assert(self.hierarchies[a].1.members[i].1 == self.hierarchies[b].1.members[j].1);
        }
        assert forall|id: u32| #[trigger]
            after.leaf_names.contains_key(id) implies !after.is_aggregate(id) by {
            assert(self.leaf_names.contains_key(id));
        }
    }

    /// Deleting a member keeps a dimension sound. Its name is then unknown, and
    /// so are its ids, to the bank and to every hierarchy.
    pub proof fn deleting_a_member_keeps_sound(self, name: Seq<char>)
        requires
            self.sound(),
        ensures
            self.member_deleted(name).0.sound(),
            self.member_deleted(name).1 matches Ok(ids) ==> {
                let after = self.member_deleted(name).0;
                &&& after.unknown(name)
                &&& forall|k: int|
                    0 <= k < ids.len() ==> !after.leaf_names.contains_key(#[trigger] ids[k])
                &&& forall|p: int, i: int|
                    #![trigger after.hierarchies[p].1.members[i]]
                    0 <= p < after.hierarchies.len() && 0 <= i
                        < after.hierarchies[p].1.members.len() ==> !ids.contains(
                        after.hierarchies[p].1.members[i].1,
                    )
            },
    {
        let (rest, first) = self.leaf_left(name);
        let known = ids_known(rest.hierarchies, name);
        let ids = first + known;
        match self.leaf(name) {
            Some(id) => {
                self.deleting_a_leaf_keeps_sound(name, id);
            },
            None => {
                lookup_found(self.leaf_ids, lowercase(name));
            },
        }
        if ids.len() > 0 {
            let left = rest.aggregates_deleted(name);
            let after = self.member_deleted(name).0;
            rest.deleting_aggregates_keeps_sound(name);
            left.defaults_spare_the_rest(ids);
            assert(keys(after.hierarchies) =~= keys(left.hierarchies));
            left.same_members_sound(after);
            assert(after.unknown(name)) by {
                assert forall|p: int| 0 <= p < after.hierarchies.len() implies (
                #[trigger] after.hierarchies[p]).1.id_of(name) is None by {
                    assert(left.hierarchies[p].1.id_of(name) is None);
                }
            }
            assert forall|k: int| 0 <= k < ids.len() implies !after.leaf_names.contains_key(
                #[trigger] ids[k],
            ) by {
                if k >= first.len() {
                    assert(known[k - first.len()] == ids[k]);
                }
            }
            assert forall|p: int, i: int|
                #![trigger after.hierarchies[p].1.members[i]]
                0 <= p < after.hierarchies.len() && 0 <= i
                    < after.hierarchies[p].1.members.len() implies !ids.contains(
                after.hierarchies[p].1.members[i].1,
            ) by {
                let m = left.hierarchies[p].1.members[i];
                assert(rest.hierarchies[p].1.members.contains(m));
                let was = choose|was: int|
                    0 <= was < rest.hierarchies[p].1.members.len()
                        && rest.hierarchies[p].1.members[was] == m;
                assert(rest.hierarchies[p].1.members[was] == m);
                if ids.contains(m.1) {
                    let k = choose|k: int| 0 <= k < ids.len() && ids[k] == m.1;
                    if k >= first.len() {
                        assert(known[k - first.len()] == m.1);
                        assert(known.contains(m.1));
                    }
                }
            }
        }
    }

    /// A hierarchy that a name has left does not know it.
    proof fn leaving_ends_the_name(self, p: int, name: Seq<char>)
        requires
            self.sound(),
            0 <= p < self.hierarchies.len(),
        ensures
            self.hierarchies[p].1.without_named(name).id_of(name) is None,
    {
        let key = lowercase(name);
        let h = self.hierarchies[p].1;
        assert(h.sound_over(self.leaf_ids, self.leaf_names, self.next_id));
        match h.id_of(name) {
            Some(id) => {
                let left = h.without_member(id);
                lookup_found(h.members, key);
                lookup_found(left.members, key);
                without_id_members(h.members, id);
                let at = choose|at: int|
                    0 <= at < h.members.len() && #[trigger] h.members[at] == (key, id);
                if left.id_of(name) is Some {
                    let x = left.id_of(name)->0;
                    let k = choose|k: int|
                        0 <= k < left.members.len() && #[trigger] left.members[k] == (key, x);
                    assert(left.members[k].1 != id && h.members.contains(left.members[k]));
                    let j = choose|j: int|
                        0 <= j < h.members.len() && h.members[j] == left.members[k];
                    if j < at {
                        assert(h.members[j].0 != h.members[at].0);
                    } else if at < j {
                        assert(h.members[at].0 != h.members[j].0);
                    }
                }
            },
            None => {},
        }
    }

    /// Another default member changes nothing else.
    pub proof fn defaults_spare_the_rest(self, ids: Seq<u32>)
        ensures
            self.defaults_fixed(ids) == (DimensionModel {
                default_member_id: self.defaults_fixed(ids).default_member_id,
                ..self
            }),
        decreases ids.len(),
    {
        if ids.len() > 0 {
            self.defaults_spare_the_rest(ids.drop_last());
        }
    }

    /// Deleting a leaf keeps a dimension sound.
    pub proof fn deleting_a_leaf_keeps_sound(self, name: Seq<char>, id: u32)
        requires
            self.sound(),
            self.leaf(name) == Some(id),
        ensures
            self.leaf_deleted(name, id).sound(),
            ({
                let after = self.leaf_deleted(name, id);
                &&& after.leaf(name) is None
                &&& !after.leaf_names.contains_key(id)
                &&& forall|p: int, i: int|
                    #![trigger after.hierarchies[p].1.members[i]]
                    0 <= p < after.hierarchies.len() && 0 <= i
                        < after.hierarchies[p].1.members.len()
                        ==> after.hierarchies[p].1.members[i].1 != id
            }),
    {
        let key = lowercase(name);
        let after = self.leaf_deleted(name, id);
        bank_shrinks(self.leaf_ids, self.leaf_names, self.next_id, key, id);
        without_key_members(self.leaf_ids, key);
        lookup_found(after.leaf_ids, key);
        let d = self.place(self.default_hierarchy)->0;
        place_of_is_first(keys(self.hierarchies), lowercase(self.default_hierarchy));
        assert(keys(after.hierarchies) =~= keys(self.hierarchies));
        if after.leaf(name) is Some {
            let k = choose|k: int|
                0 <= k < after.leaf_ids.len() && #[trigger] after.leaf_ids[k] == (
                    key,
                    after.leaf(name)->0,
                );
            assert(after.leaf_ids[k].0 != key);
        }
        assert forall|q: int| 0 <= q < after.hierarchies.len() implies (
        #[trigger] after.hierarchies[q]).1.sound_over(
            after.leaf_ids,
            after.leaf_names,
            after.next_id,
        ) && (forall|i: int|
            0 <= i < after.hierarchies[q].1.members.len() ==> (
            #[trigger] after.hierarchies[q].1.members[i]).1 != id
                && self.hierarchies[q].1.members.contains(after.hierarchies[q].1.members[i])) && (
        forall|m: (Seq<char>, u32)|
            self.hierarchies[q].1.members.contains(m) && m.1 != id
                ==> #[trigger] after.hierarchies[q].1.members.contains(m)) by {
            let h = self.hierarchies[q].1;
            assert(h.sound_over(self.leaf_ids, self.leaf_names, self.next_id));
            self.no_other_leaf_has_the_id(after.leaf_ids, q, key, id);
            h.loses_id(
                self.leaf_ids,
                self.leaf_names,
                self.next_id,
                after.leaf_ids,
                after.leaf_names,
                id,
                h.without_member(id),
            );
        }
        assert forall|i: int| 0 <= i < after.leaf_ids.len() implies after.hierarchies[d].1.members.contains(
            #[trigger] after.leaf_ids[i],
        ) by {
            let leaf = after.leaf_ids[i];
            let k = choose|k: int| 0 <= k < self.leaf_ids.len() && self.leaf_ids[k] == leaf;
            assert(self.hierarchies[d].1.members.contains(self.leaf_ids[k]));
            assert(after.leaf_names.contains_key(after.leaf_ids[i].1));
            assert(after.hierarchies[d].1.sound_over(
                after.leaf_ids,
                after.leaf_names,
                after.next_id,
            ));
        }
        if self.hierarchies.len() > 0 {
            assert forall|q: int, i: int|
                #![trigger after.hierarchies[q].1.members[i]]
                0 <= q < after.hierarchies.len() && 0 <= i
                    < after.hierarchies[q].1.members.len() implies (q == 0
                && after.hierarchies[q].1.members[i].1 == id) || (
            after.hierarchies[q].1.members[i].1 != id && self.hierarchies[q].1.members.contains(
                after.hierarchies[q].1.members[i],
            )) by {
                assert(after.hierarchies[q].1.sound_over(
                    after.leaf_ids,
                    after.leaf_names,
                    after.next_id,
                ));
            }
            self.still_only_leaves_shared(after, 0, id);
        }
        assert forall|x: u32| #[trigger]
            after.leaf_names.contains_key(x) implies !after.is_aggregate(x) by {
            assert(self.leaf_names.contains_key(x));
        }
    }

    proof fn deleting_aggregates_keeps_sound(self, name: Seq<char>)
        requires
            self.sound(),
            self.leaf(name) is None,
        ensures
            self.aggregates_deleted(name).sound(),
            ({
                let after = self.aggregates_deleted(name);
                let ids = ids_known(self.hierarchies, name);
                &&& after.unknown(name)
                &&& forall|p: int, i: int|
                    #![trigger after.hierarchies[p].1.members[i]]
                    0 <= p < after.hierarchies.len() && 0 <= i
                        < after.hierarchies[p].1.members.len()
                        ==> self.hierarchies[p].1.members.contains(
                        after.hierarchies[p].1.members[i],
                    )
                &&& forall|k: int|
                    0 <= k < ids.len() ==> !after.leaf_names.contains_key(#[trigger] ids[k])
                &&& forall|p: int, i: int|
                    #![trigger after.hierarchies[p].1.members[i]]
                    0 <= p < after.hierarchies.len() && 0 <= i
                        < after.hierarchies[p].1.members.len() ==> !ids.contains(
                        after.hierarchies[p].1.members[i].1,
                    )
            }),
    {
        let key = lowercase(name);
        let ids = ids_known(self.hierarchies, name);
        let after = self.aggregates_deleted(name);
        lookup_found(self.leaf_ids, key);
        let d = self.place(self.default_hierarchy)->0;
        place_of_is_first(keys(self.hierarchies), lowercase(self.default_hierarchy));
        assert(keys(after.hierarchies) =~= keys(self.hierarchies));
        assert forall|q: int| 0 <= q < after.hierarchies.len() implies (
        #[trigger] after.hierarchies[q]).1.sound_over(
            after.leaf_ids,
            after.leaf_names,
            after.next_id,
        ) && after.hierarchies[q].1.id_of(name) is None && (forall|i: int|
            0 <= i < after.hierarchies[q].1.members.len() ==> self.hierarchies[q].1.members.contains(
                #[trigger] after.hierarchies[q].1.members[i],
            ) && Some(after.hierarchies[q].1.members[i].1) != self.hierarchies[q].1.id_of(
                name,
            )) && (forall|m: (Seq<char>, u32)|
            self.hierarchies[q].1.members.contains(m) && self.leaf_names.contains_key(m.1)
                ==> #[trigger] after.hierarchies[q].1.members.contains(m)) by {
            let h = self.hierarchies[q].1;
            assert(h.sound_over(self.leaf_ids, self.leaf_names, self.next_id));
            self.leaving_ends_the_name(q, name);
            assert(after.hierarchies[q].1 == h.without_named(name));
            match h.id_of(name) {
                Some(id) => {
                    self.other_names_are_no_leaves(q, name);
                    assert(self.leaf_names.remove(id) =~= self.leaf_names);
                    assert forall|i: int| 0 <= i < self.leaf_ids.len() implies lookup(
                        h.members,
                        (#[trigger] self.leaf_ids[i]).0,
                    ) != Some(id) by {
                        if lookup(h.members, self.leaf_ids[i].0) == Some(id) {
                            h.one_name_each(key, self.leaf_ids[i].0);
                        }
                    }
                    h.loses_id(
                        self.leaf_ids,
                        self.leaf_names,
                        self.next_id,
                        self.leaf_ids,
                        self.leaf_names,
                        id,
                        h.without_member(id),
                    );
                },
                None => {},
            }
        }
        assert(after.unknown(name));
        assert forall|i: int| 0 <= i < after.leaf_ids.len() implies after.hierarchies[d].1.members.contains(
            #[trigger] after.leaf_ids[i],
        ) by {
            assert(self.leaf_names.contains_key(self.leaf_ids[i].1));
            assert(after.hierarchies[d].1.id_of(name) is None);
        }
        assert forall|a: int, b: int, i: int, j: int|
            #![trigger after.hierarchies[a].1.members[i], after.hierarchies[b].1.members[j]]
            0 <= a < b < after.hierarchies.len() && 0 <= i < after.hierarchies[a].1.members.len()
                && 0 <= j < after.hierarchies[b].1.members.len()
                && after.hierarchies[a].1.members[i].1
                == after.hierarchies[b].1.members[j].1 implies after.leaf_names.contains_key(
            after.hierarchies[a].1.members[i].1,
        ) by {
            let x = after.hierarchies[a].1.members[i];
            let y = after.hierarchies[b].1.members[j];
            assert(after.hierarchies[a].1.id_of(name) is None);
            assert(after.hierarchies[b].1.id_of(name) is None);
            assert(self.hierarchies[a].1.members.contains(x));
            assert(self.hierarchies[b].1.members.contains(y));
            let k = choose|k: int|
                0 <= k < self.hierarchies[a].1.members.len() && self.hierarchies[a].1.members[k]
                    == x;
            let l = choose|l: int|
                0 <= l < self.hierarchies[b].1.members.len() && self.hierarchies[b].1.members[l]
                    == y;
            assert(self.hierarchies[a].1.members[k].1 == self.hierarchies[b].1.members[l].1);
        }
        assert forall|k: int| 0 <= k < ids.len() implies !after.leaf_names.contains_key(
            #[trigger] ids[k],
        ) by {
            ids_known_are(self.hierarchies, name);
            assert(ids.contains(ids[k]));
            let p = choose|p: int|
                0 <= p < self.hierarchies.len() && (#[trigger] self.hierarchies[p]).1.id_of(name)
                    == Some(ids[k]);
            self.other_names_are_no_leaves(p, name);
        }
        assert forall|q: int, i: int|
            #![trigger after.hierarchies[q].1.members[i]]
            0 <= q < after.hierarchies.len() && 0 <= i
                < after.hierarchies[q].1.members.len() implies !ids.contains(
            after.hierarchies[q].1.members[i].1,
        ) by {
            let m = after.hierarchies[q].1.members[i];
            assert(after.hierarchies[q].1.id_of(name) is None);
            assert(self.hierarchies[q].1.members.contains(m));
            if ids.contains(m.1) {
                ids_known_are(self.hierarchies, name);
                let p = choose|p: int|
                    0 <= p < self.hierarchies.len() && (
                    #[trigger] self.hierarchies[p]).1.id_of(name) == Some(m.1);
                self.other_names_are_no_leaves(p, name);
                lookup_found(self.hierarchies[p].1.members, key);
                let at = choose|at: int|
                    0 <= at < self.hierarchies[p].1.members.len()
                        && #[trigger] self.hierarchies[p].1.members[at] == (key, m.1);
                let k = choose|k: int|
                    0 <= k < self.hierarchies[q].1.members.len()
                        && self.hierarchies[q].1.members[k] == m;
                if q < p {
                    assert(self.hierarchies[q].1.members[k].1
                        == self.hierarchies[p].1.members[at].1);
                } else if p < q {
                    assert(self.hierarchies[p].1.members[at].1
                        == self.hierarchies[q].1.members[k].1);
                }
            }
        }
        assert forall|x: u32| #[trigger]
            after.leaf_names.contains_key(x) implies !after.is_aggregate(x) by {
            assert(self.leaf_names.contains_key(x));
            assert(!self.is_aggregate(x));
            assert forall|q: int| 0 <= q < self.hierarchies.len() implies (
            #[trigger] self.hierarchies[q]).1.without_named(name).kids(x).len() == 0 by {
                let h = self.hierarchies[q].1;
                assert(h.sound_over(self.leaf_ids, self.leaf_names, self.next_id));
                if h.without_named(name).children.contains_key(x) {
                    assert(h.children.contains_key(x));
                    assert(!self.leaf_names.contains_key(x));
                }
            }
            leaves_stay_leaves(self.types, self.hierarchies, name, x);
        }
    }
}

/// What the hierarchies have for a member are its ids.
proof fn ids_known_are<N: Number>(
    hierarchies: Seq<(Seq<char>, HierarchyModel<N>)>,
    member: Seq<char>,
)
    ensures
        forall|id: u32| #[trigger]
            ids_known(hierarchies, member).contains(id) ==> exists|p: int|
                0 <= p < hierarchies.len() && (#[trigger] hierarchies[p]).1.id_of(member) == Some(
                    id,
                ),
    decreases hierarchies.len(),
{
    if hierarchies.len() > 0 {
        let rest = hierarchies.drop_last();
        ids_known_are(rest, member);
        let ids = ids_known(hierarchies, member);
        assert forall|id: u32| #[trigger] ids.contains(id) implies exists|p: int|
            0 <= p < hierarchies.len() && (#[trigger] hierarchies[p]).1.id_of(member) == Some(id) by {
            let k = choose|k: int| 0 <= k < ids.len() && ids[k] == id;
            let before = ids_known(rest, member);
            if k < before.len() {
                assert(before[k] == id);
                assert(before.contains(id));
                let p = choose|p: int|
                    0 <= p < rest.len() && (#[trigger] rest[p]).1.id_of(member) == Some(id);
                assert(hierarchies[p] == rest[p]);
            } else {
                assert(hierarchies[hierarchies.len() - 1].1.id_of(member) == Some(id));
            }
        }
    }
}

/// An id that is no aggregate, and has no children after a member has left,
/// does not become one.
proof fn leaves_stay_leaves<N: Number>(
    types: Map<u32, MemberType>,
    hierarchies: Seq<(Seq<char>, HierarchyModel<N>)>,
    member: Seq<char>,
    x: u32,
)
    requires
        types.contains_key(x) ==> types[x] != MemberType::Consolidated,
        forall|q: int|
            0 <= q < hierarchies.len() ==> (#[trigger] hierarchies[q]).1.without_named(
                member,
            ).kids(x).len() == 0,
    ensures
        types_left(types, hierarchies, member).contains_key(x) ==> types_left(
            types,
            hierarchies,
            member,
        )[x] != MemberType::Consolidated,
    decreases hierarchies.len(),
{
    if hierarchies.len() > 0 {
        let rest = hierarchies.drop_last();
        assert forall|q: int| 0 <= q < rest.len() implies (#[trigger] rest[q]).1.without_named(
            member,
        ).kids(x).len() == 0 by {
            assert(hierarchies[q] == rest[q]);
        }
        leaves_stay_leaves(types, rest, member, x);
        assert(hierarchies[hierarchies.len() - 1].1.without_named(member).kids(x).len() == 0);
    }
}

/// What is found is a hierarchy that knows the member, if there is one.
proof fn found_by_name<N: Number>(
    hierarchies: Seq<(Seq<char>, HierarchyModel<N>)>,
    member: Seq<char>,
)
    ensures
        match first_by_name(hierarchies, member) {
            Some(i) => 0 <= i < hierarchies.len() && hierarchies[i].1.id_of(member) is Some,
            None => forall|i: int|
                0 <= i < hierarchies.len() ==> (#[trigger] hierarchies[i]).1.id_of(
                    member,
                ) is None,
        },
    decreases hierarchies.len(),
{
    if hierarchies.len() > 0 {
        let rest = hierarchies.drop_last();
        found_by_name(rest, member);
        if first_by_name(hierarchies, member) is None {
            assert forall|i: int| 0 <= i < hierarchies.len() implies (
            #[trigger] hierarchies[i]).1.id_of(member) is None by {
                if i < rest.len() {
                    assert(rest[i].1.id_of(member) is None);
                }
            }
        }
    }
}

// ---------------------------------------------------------------------------
// The case of names
// ---------------------------------------------------------------------------

impl<N: Number> HierarchyModel<N> {
    /// A member goes by its name in any case.
    pub proof fn case_makes_no_other_member(self, member: Seq<char>, same: Seq<char>)
        requires
            is_ascii_text(member),
            same_but_case(member, same),
        ensures
            self.id_of(member) == self.id_of(same),
    {
        case_makes_no_difference(member, same);
    }
}

impl<N: Number> DimensionModel<N> {
    /// A hierarchy, and a leaf, go by their names in any case.
    pub proof fn case_makes_no_other_hierarchy(self, name: Seq<char>, same: Seq<char>)
        requires
            is_ascii_text(name),
            same_but_case(name, same),
        ensures
            self.place(name) == self.place(same),
            self.hierarchy(name) == self.hierarchy(same),
            self.leaf(name) == self.leaf(same),
    {
        case_makes_no_difference(name, same);
    }
}

} // verus!
