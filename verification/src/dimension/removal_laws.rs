//! What stays when members come, go and move.

use crate::dimension::dimension::{ids_known, least_id, name_in_any, with_leaves, DimensionModel};
use crate::dimension::hierarchy::{child_ids, kids_without, moved, place_before, HierarchyModel};
use crate::dimension::laws::ids_distinct;
use crate::dimension::order_laws::{all_with_members, with_id_members};
use crate::dimension::tree_laws::kids_without_members;
use crate::number::Number;
use crate::storage::id_map::{
    ids_without, ids_without_members, in_turn, place_of_id, place_of_id_is_first,
};
use crate::storage::name_map::{
    distinct, key_of, keys, lookup, lookup_after_put, lookup_finds, lookup_found, without_id,
    without_id_members, without_key, without_key_members,
};
use crate::text::{lowercase, place_of_is_first};
use vstd::prelude::*;

verus! {

/// A name that does not stand for the id is found as before when the id is gone.
proof fn lookup_without_id(entries: Seq<(Seq<char>, u32)>, id: u32, key: Seq<char>)
    requires
        distinct(entries),
        lookup(entries, key) != Some(id),
    ensures
        lookup(without_id(entries, id), key) == lookup(entries, key),
{
    let left = without_id(entries, id);
    without_id_members(entries, id);
    lookup_found(entries, key);
    lookup_found(left, key);
    match lookup(entries, key) {
        Some(v) => {
            let i = choose|i: int| 0 <= i < entries.len() && #[trigger] entries[i] == (key, v);
            assert(entries[i].1 != id);
            assert(left.contains(entries[i]));
            let k = choose|k: int| 0 <= k < left.len() && left[k] == entries[i];
            lookup_finds(left, k);
        },
        None => {
            if lookup(left, key) is Some {
                let v = lookup(left, key)->0;
                let k = choose|k: int| 0 <= k < left.len() && #[trigger] left[k] == (key, v);
                assert(entries.contains(left[k]));
                let i = choose|i: int| 0 <= i < entries.len() && entries[i] == left[k];
                assert(entries[i].0 == key);
            }
        },
    }
}

proof fn lookup_without_key<V>(entries: Seq<(Seq<char>, V)>, gone: Seq<char>, key: Seq<char>)
    requires
        distinct(entries),
        key != gone,
    ensures
        lookup(without_key(entries, gone), key) == lookup(entries, key),
{
    let left = without_key(entries, gone);
    without_key_members(entries, gone);
    lookup_found(entries, key);
    lookup_found(left, key);
    match lookup(entries, key) {
        Some(v) => {
            let i = choose|i: int| 0 <= i < entries.len() && #[trigger] entries[i] == (key, v);
            assert(entries[i].0 != gone);
            assert(left.contains(entries[i]));
            let k = choose|k: int| 0 <= k < left.len() && left[k] == entries[i];
            lookup_finds(left, k);
        },
        None => {
            if lookup(left, key) is Some {
                let v = lookup(left, key)->0;
                let k = choose|k: int| 0 <= k < left.len() && #[trigger] left[k] == (key, v);
                assert(entries.contains(left[k]));
                let i = choose|i: int| 0 <= i < entries.len() && entries[i] == left[k];
                assert(entries[i].0 == key);
            }
        },
    }
}

/// What is moved about in a list stays in it.
proof fn moving_loses_nothing(ids: Seq<u32>, from: int, to: int, id: u32)
    requires
        0 <= from < ids.len(),
        0 <= to < ids.len(),
        ids.contains(id),
    ensures
        moved(ids, from, to).contains(id),
{
    let i = choose|i: int| 0 <= i < ids.len() && ids[i] == id;
    let rest = ids.remove(from);
    if i == from {
        assert(moved(ids, from, to)[to] == id);
    } else {
        let r = if i < from {
            i
        } else {
            i - 1
        };
        assert(rest[r] == id);
        let k = if r < to {
            r
        } else {
            r + 1
        };
        assert(moved(ids, from, to)[k] == id);
    }
}

// ---------------------------------------------------------------------------
// Hierarchies
// ---------------------------------------------------------------------------

impl<N: Number> HierarchyModel<N> {
    /// What has no parent is at the top level, so that every member is somewhere in the
    /// tree.
    pub open spec fn all_are_placed(self) -> bool {
        forall|i: int|
            0 <= i < self.members.len() ==> self.parent.contains_key(
                (#[trigger] self.members[i]).1,
            ) || self.roots.contains(self.members[i].1)
    }

    /// A member that leaves takes no other with it: its children go to the top level, and
    /// every other member keeps its name, its parent and its weight.
    pub proof fn a_member_leaves_alone(self, id: u32)
        requires
            self.one_parent_each(),
            distinct(self.members),
        ensures
            ({
                let after = self.without_member(id);
                &&& forall|key: Seq<char>|
                    lookup(self.members, key) != Some(id) ==> #[trigger] lookup(after.members, key)
                        == lookup(self.members, key)
                &&& forall|child: u32| #[trigger]
                    self.is_under(child, id) && child != id ==> after.roots.contains(child)
                        && !after.parent.contains_key(child)
                &&& forall|parent: u32|
                    parent != id ==> #[trigger] after.kids(parent) == kids_without(
                        self.kids(parent),
                        id,
                    )
                &&& after.kids(id).len() == 0
                &&& forall|other: u32|
                    other != id && self.roots.contains(other) ==> #[trigger] after.roots.contains(
                        other,
                    )
            }),
    {
        let after = self.without_member(id);
        let cut = if self.parent.contains_key(id) {
            HierarchyModel {
                children: self.cut(self.parent[id], id),
                parent: self.parent.remove(id),
                ..self
            }
        } else {
            self
        };
        let orphans = child_ids(cut.kids(id));
        let left = ids_without(self.roots, id);
        ids_without_members(self.roots, id);
        all_with_members(left, orphans);
        assert forall|key: Seq<char>|
            lookup(self.members, key) != Some(id) implies #[trigger] lookup(after.members, key)
            == lookup(self.members, key) by {
            lookup_without_id(self.members, id, key);
        }
        assert forall|parent: u32| parent != id implies #[trigger] after.kids(parent)
            == kids_without(self.kids(parent), id) by {
            kids_without_members(self.kids(parent), id);
            assert(self.is_under(id, parent) == (self.parent.contains_key(id) && self.parent[id]
                == parent));
        }
        assert forall|child: u32| #[trigger] self.is_under(child, id) && child != id implies
            after.roots.contains(child) && !after.parent.contains_key(child) by {
            kids_without_members(self.kids(id), id);
            if self.parent.contains_key(id) && self.parent[id] == id {
                assert(cut.kids(id) == kids_without(self.kids(id), id));
            } else {
                assert(cut.kids(id) == self.kids(id));
            }
            assert(child_ids(self.kids(id)).contains(child));
            assert(orphans.contains(child));
        }
    }

    /// Every change keeps all members in the tree.
    pub proof fn changes_keep_all_placed(
        self,
        name: Seq<char>,
        id: u32,
        parent: u32,
        weight: N,
        reference: u32,
    )
        requires
            self.all_are_placed(),
            self.one_parent_each(),
            distinct(self.members),
            ids_distinct(self.members),
        ensures
            self.with_leaf(name, id).all_are_placed(),
            lookup(self.members, lowercase(name)) is None || lookup(self.members, lowercase(name))
                == Some(id) ==> self.with_aggregate(name, id).all_are_placed(),
            self.without_alias(id).all_are_placed(),
            self.without_member(id).all_are_placed(),
            self.linked(parent, id, weight).all_are_placed(),
            self.is_under(id, parent) ==> (HierarchyModel {
                children: self.cut(parent, id),
                ..self
            }).detached(id).all_are_placed(),
            self.moved_before(id, reference).all_are_placed(),
            self.moved_to_front(id).all_are_placed(),
    {
        self.new_members_are_placed(name, id);
        self.leaving_keeps_all_placed(id);
        self.links_keep_all_placed(id, parent, weight);
        self.moves_keep_all_placed(id, reference);
    }

    proof fn new_members_are_placed(self, name: Seq<char>, id: u32)
        requires
            self.all_are_placed(),
        ensures
            self.with_leaf(name, id).all_are_placed(),
            lookup(self.members, lowercase(name)) is None || lookup(self.members, lowercase(name))
                == Some(id) ==> self.with_aggregate(name, id).all_are_placed(),
    {
        with_id_members(self.roots, id);
        let leaf = self.with_leaf(name, id);
        assert forall|i: int| 0 <= i < leaf.members.len() implies leaf.parent.contains_key(
            (#[trigger] leaf.members[i]).1,
        ) || leaf.roots.contains(leaf.members[i].1) by {
            if i < self.members.len() {
                assert(leaf.members[i] == self.members[i]);
            }
        }
        let key = lowercase(name);
        if lookup(self.members, key) is None || lookup(self.members, key) == Some(id) {
            let aggregate = self.with_aggregate(name, id);
            place_of_is_first(keys(self.members), key);
            assert forall|i: int|
                0 <= i < aggregate.members.len() implies aggregate.parent.contains_key(
                (#[trigger] aggregate.members[i]).1,
            ) || aggregate.roots.contains(aggregate.members[i].1) by {
                if i < self.members.len() && aggregate.members[i] == self.members[i] {
                    assert(self.parent.contains_key(self.members[i].1) || self.roots.contains(
                        self.members[i].1,
                    ));
                }
            }
        }
    }

    proof fn leaving_keeps_all_placed(self, id: u32)
        requires
            self.all_are_placed(),
            self.one_parent_each(),
            distinct(self.members),
        ensures
            self.without_alias(id).all_are_placed(),
            self.without_member(id).all_are_placed(),
    {
        without_id_members(self.members, id);
        ids_without_members(self.roots, id);
        let left = without_id(self.members, id);
        assert forall|i: int| 0 <= i < left.len() implies (#[trigger] left[i]).1 != id && (
        self.parent.contains_key(left[i].1) || self.roots.contains(left[i].1)) by {
            assert(self.members.contains(left[i]));
            let k = choose|k: int| 0 <= k < self.members.len() && self.members[k] == left[i];
            assert(self.parent.contains_key(self.members[k].1) || self.roots.contains(
                self.members[k].1,
            ));
        }
        let alias = self.without_alias(id);
        assert forall|i: int| 0 <= i < alias.members.len() implies alias.parent.contains_key(
            (#[trigger] alias.members[i]).1,
        ) || alias.roots.contains(alias.members[i].1) by {
            if !self.names.contains_key(id) {
                assert(alias.members[i] == left[i]);
            }
        }
        let after = self.without_member(id);
        self.a_member_leaves_alone(id);
        assert forall|i: int| 0 <= i < after.members.len() implies after.parent.contains_key(
            (#[trigger] after.members[i]).1,
        ) || after.roots.contains(after.members[i].1) by {
            let other = left[i].1;
            assert(after.members[i] == left[i]);
            if self.roots.contains(other) {
                assert(after.roots.contains(other));
            } else {
                let parent = self.parent[other];
                assert(self.is_under(other, parent));
                if parent == id {
                    assert(after.roots.contains(other));
                } else {
                    assert(!self.is_under(other, id));
                    kids_without_members(self.kids(id), id);
                    assert(after.parent.contains_key(other));
                }
            }
        }
    }

    proof fn links_keep_all_placed(self, id: u32, parent: u32, weight: N)
        requires
            self.all_are_placed(),
        ensures
            self.linked(parent, id, weight).all_are_placed(),
            (HierarchyModel { children: self.cut(parent, id), ..self }).detached(
                id,
            ).all_are_placed(),
    {
        ids_without_members(self.roots, id);
        with_id_members(self.roots, id);
        let linked = self.linked(parent, id, weight);
        assert forall|i: int| 0 <= i < linked.members.len() implies linked.parent.contains_key(
            (#[trigger] linked.members[i]).1,
        ) || linked.roots.contains(linked.members[i].1) by {
            assert(self.parent.contains_key(self.members[i].1) || self.roots.contains(
                self.members[i].1,
            ));
        }
        let cut = (HierarchyModel { children: self.cut(parent, id), ..self }).detached(id);
        assert forall|i: int| 0 <= i < cut.members.len() implies cut.parent.contains_key(
            (#[trigger] cut.members[i]).1,
        ) || cut.roots.contains(cut.members[i].1) by {
            assert(self.parent.contains_key(self.members[i].1) || self.roots.contains(
                self.members[i].1,
            ));
        }
    }

    proof fn moves_keep_all_placed(self, id: u32, reference: u32)
        requires
            self.all_are_placed(),
        ensures
            self.moved_before(id, reference).all_are_placed(),
            self.moved_to_front(id).all_are_placed(),
    {
        let moved_there = self.moved_before(id, reference);
        assert forall|other: u32|
            self.roots.contains(other) implies #[trigger] moved_there.roots.contains(other) by {
            if !self.parent.contains_key(id) && id != reference {
                place_of_id_is_first(self.roots, id);
                match place_of_id(self.roots, id) {
                    Some(from) => {
                        let rest = self.roots.remove(from);
                        place_of_id_is_first(rest, reference);
                        let to = place_before(rest, reference);
                        moving_loses_nothing(self.roots, from, to, other);
                    },
                    None => {},
                }
            }
        }
        assert forall|i: int|
            0 <= i < moved_there.members.len() implies moved_there.parent.contains_key(
            (#[trigger] moved_there.members[i]).1,
        ) || moved_there.roots.contains(moved_there.members[i].1) by {
            assert(self.parent.contains_key(self.members[i].1) || self.roots.contains(
                self.members[i].1,
            ));
        }
        let front = self.moved_to_front(id);
        ids_without_members(self.roots, id);
        assert forall|other: u32|
            self.roots.contains(other) implies #[trigger] front.roots.contains(other) by {
            if !self.parent.contains_key(id) {
                let left = ids_without(self.roots, id);
                if other == id {
                    assert(front.roots[0] == id);
                } else {
                    assert(left.contains(other));
                    let k = choose|k: int| 0 <= k < left.len() && left[k] == other;
                    assert(front.roots[k + 1] == other);
                }
            }
        }
        assert forall|i: int| 0 <= i < front.members.len() implies front.parent.contains_key(
            (#[trigger] front.members[i]).1,
        ) || front.roots.contains(front.members[i].1) by {
            assert(self.parent.contains_key(self.members[i].1) || self.roots.contains(
                self.members[i].1,
            ));
        }
    }
}

// ---------------------------------------------------------------------------
// Dimensions
// ---------------------------------------------------------------------------

impl<N: Number> DimensionModel<N> {
    /// In every hierarchy all members are in the tree.
    pub open spec fn all_are_placed(self) -> bool {
        forall|p: int|
            0 <= p < self.hierarchies.len() ==> (#[trigger] self.hierarchies[p]).1.all_are_placed()
    }

    /// Adding a leaf keeps all members in the trees.
    pub proof fn a_new_leaf_is_placed(self, name: Seq<char>)
        requires
            self.all_are_placed(),
        ensures
            self.leaf_added(name).0.all_are_placed(),
    {
        let after = self.leaf_added(name).0;
        assert forall|p: int| 0 <= p < after.hierarchies.len() implies (
        #[trigger] after.hierarchies[p]).1.all_are_placed() by {
            assert(self.hierarchies[p].1.all_are_placed());
            self.hierarchies[p].1.new_members_are_placed(name, self.next_id);
        }
    }

    /// Deleting a member keeps every other under its name and its id, and keeps all in
    /// the trees.
    pub proof fn deleting_a_member_spares_the_others(
        self,
        name: Seq<char>,
        hierarchy: Option<Seq<char>>,
        other: Seq<char>,
    )
        requires
            self.sound(),
            self.one_parent_each(),
            self.all_are_placed(),
            lowercase(other) != lowercase(name),
        ensures
            self.member_deleted(name).0.id_in(hierarchy, other) == self.id_in(hierarchy, other),
            self.member_deleted(name).0.leaf(other) == self.leaf(other),
            self.member_deleted(name).0.all_are_placed(),
    {
        let (rest, first) = self.leaf_left(name);
        let after = self.member_deleted(name).0;
        if self.member_deleted(name).1 is Ok {
            let ids = self.member_deleted(name).1->Ok_0;
            let left = rest.aggregates_deleted(name);
            left.defaults_spare_the_rest(ids);
            match self.leaf(name) {
                Some(id) => {
                    self.deleting_a_leaf_keeps_sound(name, id);
                    lookup_without_key(self.leaf_ids, lowercase(name), lowercase(other));
                },
                None => {},
            }
            assert(rest.sound());
            self.deleting_keeps_one_parent(name);
            assert(keys(after.hierarchies) =~= keys(self.hierarchies));
            assert forall|p: int| 0 <= p < self.hierarchies.len() implies (
            #[trigger] after.hierarchies[p]).1.id_of(other) == self.hierarchies[p].1.id_of(other)
                && after.hierarchies[p].1.all_are_placed() by {
                let h = self.hierarchies[p].1;
                let between = rest.hierarchies[p].1;
                assert(h.sound_over(self.leaf_ids, self.leaf_names, self.next_id));
                assert(between.sound_over(rest.leaf_ids, rest.leaf_names, rest.next_id));
                assert(self.hierarchies[p].1.one_parent_each());
                assert(self.hierarchies[p].1.all_are_placed());
                match self.leaf(name) {
                    Some(id) => {
                        self.other_names_have_other_ids(p, name, other, id);
                        lookup_without_id(h.members, id, lowercase(other));
                        h.leaving_keeps_all_placed(id);
                        h.removal_keeps_one_parent(id);
                    },
                    None => {},
                }
                match between.id_of(name) {
                    Some(id) => {
                        if between.id_of(other) == Some(id) {
                            between.one_name_each(lowercase(name), lowercase(other));
                        }
                        lookup_without_id(between.members, id, lowercase(other));
                        between.leaving_keeps_all_placed(id);
                    },
                    None => {},
                }
            }
            let named = lowercase(self.hierarchy_named(hierarchy));
            place_of_is_first(keys(self.hierarchies), named);
        }
    }

    /// No other name of a hierarchy stands for the id of a leaf.
    proof fn other_names_have_other_ids(
        self,
        p: int,
        name: Seq<char>,
        other: Seq<char>,
        id: u32,
    )
        requires
            self.sound(),
            0 <= p < self.hierarchies.len(),
            self.leaf(name) == Some(id),
            lowercase(other) != lowercase(name),
        ensures
            self.hierarchies[p].1.id_of(other) != Some(id),
    {
        let h = self.hierarchies[p].1;
        assert(h.sound_over(self.leaf_ids, self.leaf_names, self.next_id));
        self.a_leaf_has_one_id(name, p);
        lookup_found(self.leaf_ids, lowercase(name));
        let at = choose|at: int|
            0 <= at < self.leaf_ids.len() && #[trigger] self.leaf_ids[at] == (lowercase(name), id);
        assert(lowercase(self.leaf_names[self.leaf_ids[at].1]) == self.leaf_ids[at].0);
        if h.id_of(other) == Some(id) {
            lookup_found(h.members, lowercase(other));
            let k = choose|k: int|
                0 <= k < h.members.len() && #[trigger] h.members[k] == (lowercase(other), id);
            assert(h.members[k].0 == lowercase(self.leaf_names[h.members[k].1]));
        }
    }
}

// ---------------------------------------------------------------------------
// What a member was known by
// ---------------------------------------------------------------------------

/// The ids that hierarchies have for a name are those that some hierarchy has for it.
proof fn ids_known_are_all<N: Number>(
    hierarchies: Seq<(Seq<char>, HierarchyModel<N>)>,
    name: Seq<char>,
    id: u32,
)
    ensures
        ids_known(hierarchies, name).contains(id) == (exists|p: int|
            0 <= p < hierarchies.len() && (#[trigger] hierarchies[p]).1.id_of(name) == Some(id)),
    decreases hierarchies.len(),
{
    if hierarchies.len() > 0 {
        let rest = hierarchies.drop_last();
        let last = hierarchies.len() - 1;
        let before = ids_known(rest, name);
        let all = ids_known(hierarchies, name);
        ids_known_are_all(rest, name, id);
        if exists|p: int|
            0 <= p < hierarchies.len() && (#[trigger] hierarchies[p]).1.id_of(name) == Some(id) {
            let p = choose|p: int|
                0 <= p < hierarchies.len() && (#[trigger] hierarchies[p]).1.id_of(name) == Some(id);
            if p < last {
                assert(rest[p].1.id_of(name) == Some(id));
                let k = choose|k: int| 0 <= k < before.len() && before[k] == id;
                assert(all[k] == id);
            } else {
                assert(all[before.len() as int] == id);
            }
        }
        if all.contains(id) {
            let k = choose|k: int| 0 <= k < all.len() && all[k] == id;
            if k < before.len() {
                assert(before[k] == id);
                let p = choose|p: int|
                    0 <= p < rest.len() && (#[trigger] rest[p]).1.id_of(name) == Some(id);
                assert(hierarchies[p].1.id_of(name) == Some(id));
            } else {
                assert(hierarchies[last].1.id_of(name) == Some(id));
            }
        }
    }
}

/// A name that stood for the id stands for nothing when the id is gone.
proof fn lookup_of_the_id(entries: Seq<(Seq<char>, u32)>, id: u32, key: Seq<char>)
    requires
        distinct(entries),
        lookup(entries, key) == Some(id),
    ensures
        lookup(without_id(entries, id), key) is None,
{
    let left = without_id(entries, id);
    without_id_members(entries, id);
    lookup_found(entries, key);
    lookup_found(left, key);
    let at = choose|at: int| 0 <= at < entries.len() && #[trigger] entries[at] == (key, id);
    if lookup(left, key) is Some {
        let v = lookup(left, key)->0;
        let k = choose|k: int| 0 <= k < left.len() && #[trigger] left[k] == (key, v);
        assert(left[k].1 != id && entries.contains(left[k]));
        let j = choose|j: int| 0 <= j < entries.len() && entries[j] == left[k];
        assert(entries[j].0 == entries[at].0);
    }
}

impl<N: Number> DimensionModel<N> {
    /// A member can be deleted exactly if it is a leaf or some hierarchy knows it, and
    /// the ids that are told are all that it had.
    pub proof fn the_ids_of_a_member_are_told(self, name: Seq<char>, id: u32)
        requires
            self.sound(),
        ensures
            ({
                let known = self.leaf(name) == Some(id) || exists|p: int|
                    0 <= p < self.hierarchies.len() && (#[trigger] self.hierarchies[p]).1.id_of(
                        name,
                    ) == Some(id);
                &&& known ==> self.member_deleted(name).1 is Ok
                &&& self.member_deleted(name).1 matches Ok(ids) ==> ids.len() > 0 && ids.contains(
                    id,
                ) == known
            }),
    {
        let (rest, first) = self.leaf_left(name);
        let others = ids_known(rest.hierarchies, name);
        let ids = first + others;
        ids_known_are_all(rest.hierarchies, name, id);
        assert(ids.contains(id) == (first.contains(id) || others.contains(id))) by {
            if first.contains(id) {
                let k = choose|k: int| 0 <= k < first.len() && first[k] == id;
                assert(ids[k] == id);
            }
            if others.contains(id) {
                let k = choose|k: int| 0 <= k < others.len() && others[k] == id;
                assert(ids[first.len() + k] == id);
            }
            if ids.contains(id) {
                let k = choose|k: int| 0 <= k < ids.len() && ids[k] == id;
                if k < first.len() {
                    assert(first[k] == id);
                } else {
                    assert(others[k - first.len()] == id);
                }
            }
        }
        assert(first.contains(id) == (self.leaf(name) == Some(id))) by {
            if self.leaf(name) == Some(id) {
                assert(first[0] == id);
            }
        }
        if self.leaf(name) != Some(id) {
            assert forall|p: int| 0 <= p < self.hierarchies.len() implies ((
            #[trigger] self.hierarchies[p]).1.id_of(name) == Some(id)) == (
            rest.hierarchies[p].1.id_of(name) == Some(id)) by {
                let h = self.hierarchies[p].1;
                assert(h.sound_over(self.leaf_ids, self.leaf_names, self.next_id));
                match self.leaf(name) {
                    Some(leaf) => {
                        if h.id_of(name) == Some(leaf) {
                            lookup_of_the_id(h.members, leaf, lowercase(name));
                        } else {
                            lookup_without_id(h.members, leaf, lowercase(name));
                        }
                    },
                    None => {},
                }
            }
            if exists|p: int|
                0 <= p < self.hierarchies.len() && (#[trigger] self.hierarchies[p]).1.id_of(name)
                    == Some(id) {
                let p = choose|p: int|
                    0 <= p < self.hierarchies.len() && (#[trigger] self.hierarchies[p]).1.id_of(
                        name,
                    ) == Some(id);
                assert(rest.hierarchies[p].1.id_of(name) == Some(id));
            }
            if others.contains(id) {
                let p = choose|p: int|
                    0 <= p < rest.hierarchies.len() && (#[trigger] rest.hierarchies[p]).1.id_of(
                        name,
                    ) == Some(id);
                assert(self.hierarchies[p].1.id_of(name) == Some(id));
            }
        }
    }

    /// The default member stays it unless it is deleted; where it is, the leaf with the
    /// least id takes its place, if there is any leaf.
    pub proof fn the_least_leaf_follows_the_default(self, ids: Seq<u32>)
        ensures
            !(self.default_member_id matches Some(id) && ids.contains(id)) ==> self.defaults_fixed(
                ids,
            ).default_member_id == self.default_member_id,
            self.default_member_id matches Some(id) && ids.contains(id) ==> match
                self.defaults_fixed(ids).default_member_id {
                Some(least) => (exists|i: int|
                    0 <= i < self.leaf_ids.len() && (#[trigger] self.leaf_ids[i]).1 == least)
                    && forall|i: int|
                    0 <= i < self.leaf_ids.len() ==> least <= (#[trigger] self.leaf_ids[i]).1,
                None => self.leaf_ids.len() == 0,
            },
        decreases ids.len(),
    {
        least_id_is_least(self.leaf_ids);
        if ids.len() > 0 {
            let rest = ids.drop_last();
            self.the_least_leaf_follows_the_default(rest);
            self.defaults_spare_the_rest(rest);
            match self.default_member_id {
                Some(id) => {
                    if ids.contains(id) && id != ids.last() {
                        let k = choose|k: int| 0 <= k < ids.len() && ids[k] == id;
                        assert(rest[k] == id);
                    }
                    if rest.contains(id) {
                        let k = choose|k: int| 0 <= k < rest.len() && rest[k] == id;
                        assert(ids[k] == id);
                    }
                    assert(ids[ids.len() - 1] == ids.last());
                },
                None => {},
            }
        }
    }
}

proof fn least_id_is_least(entries: Seq<(Seq<char>, u32)>)
    ensures
        match least_id(entries) {
            Some(least) => (exists|i: int|
                0 <= i < entries.len() && (#[trigger] entries[i]).1 == least) && forall|i: int|
                0 <= i < entries.len() ==> least <= (#[trigger] entries[i]).1,
            None => entries.len() == 0,
        },
    decreases entries.len(),
{
    if entries.len() > 0 {
        let rest = entries.drop_last();
        least_id_is_least(rest);
        assert(entries[entries.len() - 1] == entries.last());
        if rest.len() > 0 {
            let i = choose|i: int|
                0 <= i < rest.len() && (#[trigger] rest[i]).1 == least_id(rest)->0;
            assert(entries[i] == rest[i]);
        }
        assert forall|i: int| 0 <= i < entries.len() implies least_id(entries)->0 <= (
        #[trigger] entries[i]).1 by {
            if i < rest.len() {
                assert(rest[i] == entries[i]);
            }
        }
    }
}

impl<N: Number> DimensionModel<N> {
    /// Where the default member is deleted, the leaf with the least id that is left takes
    /// its place; where another is, it stays.
    pub proof fn a_deleted_default_is_followed(self, name: Seq<char>)
        requires
            self.member_deleted(name).1 is Ok,
        ensures
            ({
                let (after, outcome) = self.member_deleted(name);
                let ids = outcome->Ok_0;
                let gone = self.default_member_id matches Some(id) && ids.contains(id);
                &&& !gone ==> after.default_member_id == self.default_member_id
                &&& gone ==> match after.default_member_id {
                    Some(least) => (exists|i: int|
                        0 <= i < after.leaf_ids.len() && (#[trigger] after.leaf_ids[i]).1 == least)
                        && forall|i: int|
                        0 <= i < after.leaf_ids.len() ==> least <= (#[trigger] after.leaf_ids[i]).1,
                    None => after.leaf_ids.len() == 0,
                }
            }),
    {
        let ids = self.member_deleted(name).1->Ok_0;
        let left = self.leaf_left(name).0.aggregates_deleted(name);
        left.defaults_spare_the_rest(ids);
        left.the_least_leaf_follows_the_default(ids);
    }

    /// A leaf that becomes an aggregate keeps its id and the name that it was given.
    pub proof fn a_promoted_leaf_keeps_its_name(
        self,
        hierarchy: Option<Seq<char>>,
        name: Seq<char>,
        id: u32,
    )
        requires
            self.sound(),
            self.leaf(name) == Some(id),
            self.id_in(hierarchy, name) == Some(id),
            self.aggregate_added(hierarchy, name).1 is Ok,
        ensures
            ({
                let (after, outcome) = self.aggregate_added(hierarchy, name);
                &&& outcome == Ok::<u32, Seq<char>>(id)
                &&& after.is_aggregate(id)
                &&& after.name_of(id) == self.name_of(id)
                &&& after.id_in(hierarchy, name) == Some(id)
            }),
    {
        let key = self.hierarchy_named(hierarchy);
        let after = self.aggregate_added(hierarchy, name).0;
        place_of_is_first(keys(self.hierarchies), lowercase(key));
        let p = self.place(key)->0;
        lookup_found(self.leaf_ids, lowercase(name));
        let at = choose|at: int|
            0 <= at < self.leaf_ids.len() && #[trigger] self.leaf_ids[at] == (lowercase(name), id);
        assert(self.leaf_names.contains_key(self.leaf_ids[at].1));
        assert(!self.is_aggregate(id));
        assert(after == self.promoted(p, name, id));
        assert(keys(after.hierarchies) =~= keys(self.hierarchies));
        assert forall|k: int| 0 <= k < after.hierarchies.len() && k != p implies (
        #[trigger] after.hierarchies[k]).1.name_of(id) is None by {
            let h = self.hierarchies[k].1;
            assert(h.sound_over(self.leaf_ids, self.leaf_names, self.next_id));
            assert(!h.names.contains_key(id));
            no_key_of_a_lost_id(h.members, id);
        }
        name_of_the_one(after.hierarchies, id, p);
        let h = self.hierarchies[p].1.without_alias(id);
        lookup_after_put(h.members, lowercase(name), id, lowercase(name));
        assert(lowercase(self.leaf_names[id]) == lowercase(name));
    }
}

proof fn no_key_of_a_lost_id(entries: Seq<(Seq<char>, u32)>, id: u32)
    ensures
        key_of(without_id(entries, id), id) is None,
    decreases entries.len(),
{
    if entries.len() > 0 {
        no_key_of_a_lost_id(entries.drop_last(), id);
        let left = without_id(entries.drop_last(), id);
        if entries.last().1 != id {
            assert(left.push(entries.last()).drop_last() =~= left);
        }
    }
}

/// An id that one hierarchy alone has a name for goes by that name.
proof fn name_of_the_one<N: Number>(
    hierarchies: Seq<(Seq<char>, HierarchyModel<N>)>,
    id: u32,
    p: int,
)
    requires
        0 <= p < hierarchies.len(),
        hierarchies[p].1.name_of(id) is Some,
        forall|k: int|
            0 <= k < hierarchies.len() && k != p ==> (#[trigger] hierarchies[k]).1.name_of(
                id,
            ) is None,
    ensures
        name_in_any(hierarchies, id) == hierarchies[p].1.name_of(id),
    decreases hierarchies.len(),
{
    let rest = hierarchies.drop_last();
    if p < rest.len() {
        assert forall|k: int| 0 <= k < rest.len() && k != p implies (
        #[trigger] rest[k]).1.name_of(id) is None by {
            assert(rest[k] == hierarchies[k]);
        }
        name_of_the_one(rest, id, p);
    } else {
        no_name_in_any(rest, id);
    }
}

proof fn no_name_in_any<N: Number>(hierarchies: Seq<(Seq<char>, HierarchyModel<N>)>, id: u32)
    requires
        forall|k: int|
            0 <= k < hierarchies.len() ==> (#[trigger] hierarchies[k]).1.name_of(id) is None,
    ensures
        name_in_any(hierarchies, id) is None,
    decreases hierarchies.len(),
{
    if hierarchies.len() > 0 {
        let rest = hierarchies.drop_last();
        assert forall|k: int| 0 <= k < rest.len() implies (#[trigger] rest[k]).1.name_of(
            id,
        ) is None by {
            assert(rest[k] == hierarchies[k]);
        }
        no_name_in_any(rest, id);
        assert(hierarchies[hierarchies.len() - 1].1.name_of(id) is None);
    }
}

impl<N: Number> DimensionModel<N> {
    /// A new hierarchy has every leaf in its tree.
    pub proof fn a_new_hierarchy_has_all_placed(self, name: Seq<char>)
        requires
            self.all_are_placed(),
        ensures
            self.hierarchy_created(name).0.all_are_placed(),
    {
        let after = self.hierarchy_created(name).0;
        let fresh = HierarchyModel::<N>::fresh(name);
        leaves_are_placed(fresh, self.leaf_names, in_turn(self.leaves()));
        assert forall|p: int| 0 <= p < after.hierarchies.len() implies (
        #[trigger] after.hierarchies[p]).1.all_are_placed() by {
            if p < self.hierarchies.len() {
                assert(after.hierarchies[p] == self.hierarchies[p]);
            } else {
                let made = with_leaves(fresh, self.leaf_names, in_turn(self.leaves()));
                let last = after.hierarchies[p].1;
                assert(last.members == made.members && last.roots == made.roots && last.parent
                    == made.parent);
                assert forall|i: int| 0 <= i < last.members.len() implies last.parent.contains_key(
                    (#[trigger] last.members[i]).1,
                ) || last.roots.contains(last.members[i].1) by {
                    assert(made.members[i] == last.members[i]);
                }
            }
        }
    }
}

proof fn leaves_are_placed<N: Number>(
    hierarchy: HierarchyModel<N>,
    leaf_names: Map<u32, Seq<char>>,
    ids: Seq<u32>,
)
    requires
        hierarchy.all_are_placed(),
    ensures
        with_leaves(hierarchy, leaf_names, ids).all_are_placed(),
    decreases ids.len(),
{
    if ids.len() > 0 {
        leaves_are_placed(hierarchy, leaf_names, ids.drop_last());
        with_leaves(hierarchy, leaf_names, ids.drop_last()).new_members_are_placed(
            leaf_names[ids.last()],
            ids.last(),
        );
    }
}

} // verus!
