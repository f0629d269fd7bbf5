//! What holds of the types of members: whatever has children is an aggregate.

use crate::dimension::dimension::{ids_known, types_left, DimensionModel, MemberType};
use crate::dimension::hierarchy::{child_ids, kids_without, HierarchyModel};
use crate::dimension::tree_laws::with_leaves_same_tree;
use crate::number::Number;
use crate::storage::id_map::{in_turn, place_of_id, place_of_id_is_first};
use crate::storage::name_map::{keys, lookup_found, put, without_id, without_id_members};
use crate::text::{lowercase, place_of_is_first};
use vstd::prelude::*;

verus! {

impl<N: Number> HierarchyModel<N> {
    /// The id is that of a member.
    pub open spec fn knows_id(self, id: u32) -> bool {
        self.member_ids().contains(id)
    }

    /// What has children is known.
    pub open spec fn parents_are_known(self) -> bool {
        forall|id: u32| #[trigger] self.kids(id).len() > 0 ==> self.knows_id(id)
    }

    /// A hierarchy with more members, and the children it had.
    proof fn members_come_known(self, other: Self)
        requires
            self.parents_are_known(),
            other.children == self.children,
            other.members.len() >= self.members.len(),
            forall|i: int|
                0 <= i < self.members.len() ==> #[trigger] other.members[i] == self.members[i],
        ensures
            other.parents_are_known(),
    {
        assert forall|id: u32| #[trigger] other.kids(id).len() > 0 implies other.knows_id(id) by {
            assert(self.kids(id).len() > 0);
            let k = choose|k: int|
                0 <= k < self.member_ids().len() && self.member_ids()[k] == id;
            assert(other.member_ids()[k] == id);
        }
    }

    /// A hierarchy without a member that has no children, or without all that a
    /// member has.
    proof fn a_member_goes_known(self, other: Self, gone: u32)
        requires
            self.parents_are_known(),
            other.members == without_id(self.members, gone),
            other.kids(gone).len() == 0,
            forall|id: u32| #[trigger] other.kids(id).len() > 0 ==> self.kids(id).len() > 0,
        ensures
            other.parents_are_known(),
    {
        without_id_members(self.members, gone);
        assert forall|id: u32| #[trigger] other.kids(id).len() > 0 implies other.knows_id(id) by {
            assert(self.kids(id).len() > 0);
            let k = choose|k: int|
                0 <= k < self.member_ids().len() && self.member_ids()[k] == id;
            assert(self.members[k].1 == id);
            assert(other.members.contains(self.members[k]));
            let j = choose|j: int| 0 <= j < other.members.len() && other.members[j] == self.members[k];
            assert(other.member_ids()[j] == id);
        }
    }

    /// Who has children after a member has left, had children before.
    proof fn removal_makes_no_parents(self, gone: u32)
        ensures
            self.without_member(gone).kids(gone).len() == 0,
            forall|id: u32| #[trigger]
                self.without_member(gone).kids(id).len() > 0 ==> self.kids(id).len() > 0,
    {
        let after = self.without_member(gone);
        assert forall|id: u32| #[trigger] after.kids(id).len() > 0 implies self.kids(id).len() > 0 by {
            if self.parent.contains_key(gone) && id == self.parent[gone] {
                kids_without_are_fewer(self.kids(id), gone);
            }
        }
    }
}

proof fn kids_without_are_fewer<N>(kids: Seq<(u32, N)>, id: u32)
    ensures
        kids_without(kids, id).len() <= kids.len(),
        kids_without(kids, id).len() < kids.len() <==> child_ids(kids).contains(id),
    decreases kids.len(),
{
    if kids.len() > 0 {
        let rest = kids.drop_last();
        kids_without_are_fewer(rest, id);
        if child_ids(rest).contains(id) {
            let k = choose|k: int| 0 <= k < rest.len() && child_ids(rest)[k] == id;
            assert(child_ids(kids)[k] == id);
        }
        if kids.last().0 == id {
            assert(child_ids(kids)[kids.len() - 1] == id);
        } else if child_ids(kids).contains(id) {
            let k = choose|k: int| 0 <= k < kids.len() && child_ids(kids)[k] == id;
            assert(child_ids(rest)[k] == id);
        }
    }
}

/// A member that has children keeps its type when another one goes.
proof fn parents_stay_aggregates<N: Number>(
    types: Map<u32, MemberType>,
    hierarchies: Seq<(Seq<char>, HierarchyModel<N>)>,
    name: Seq<char>,
    x: u32,
)
    requires
        types.contains_key(x) && types[x] == MemberType::Consolidated,
        forall|q: int|
            0 <= q < hierarchies.len() ==> ((#[trigger] hierarchies[q]).1.id_of(name) matches Some(id)
                ==> x != id && (hierarchies[q].1.without_member(id).knows_id(x)
                ==> hierarchies[q].1.without_member(id).kids(x).len() > 0)),
    ensures
        types_left(types, hierarchies, name).contains_key(x),
        types_left(types, hierarchies, name)[x] == MemberType::Consolidated,
    decreases hierarchies.len(),
{
    if hierarchies.len() > 0 {
        let rest = hierarchies.drop_last();
        assert forall|q: int| 0 <= q < rest.len() implies ((#[trigger] rest[q]).1.id_of(
            name,
        ) matches Some(id) ==> x != id && (rest[q].1.without_member(id).knows_id(x)
            ==> rest[q].1.without_member(id).kids(x).len() > 0)) by {
            assert(hierarchies[q] == rest[q]);
        }
        parents_stay_aggregates(types, rest, name, x);
        assert(hierarchies[hierarchies.len() - 1] == hierarchies.last());
    }
}

impl<N: Number> DimensionModel<N> {
    /// Whatever has children in a hierarchy is an aggregate, and a member of that
    /// hierarchy.
    pub open spec fn parents_are_aggregates(self) -> bool {
        &&& forall|p: int|
            0 <= p < self.hierarchies.len() ==> (
            #[trigger] self.hierarchies[p]).1.parents_are_known()
        &&& forall|p: int, id: u32|
            #![trigger self.hierarchies[p].1.kids(id)]
            0 <= p < self.hierarchies.len() && self.hierarchies[p].1.kids(id).len() > 0
                ==> self.is_aggregate(id)
    }

    /// A parent is known in one hierarchy only, and has an id that is given out.
    proof fn a_parent_is_known_once(self, p: int, q: int, id: u32)
        requires
            self.sound(),
            self.parents_are_aggregates(),
            0 <= p < self.hierarchies.len(),
            0 <= q < self.hierarchies.len(),
            self.hierarchies[p].1.kids(id).len() > 0,
        ensures
            id < self.next_id,
            !self.leaf_names.contains_key(id),
            p != q ==> !self.hierarchies[q].1.knows_id(id),
    {
        let h = self.hierarchies[p].1;
        let other = self.hierarchies[q].1;
        assert(self.is_aggregate(id));
        assert(self.hierarchies[p].1.parents_are_known());
        assert(h.sound_over(self.leaf_ids, self.leaf_names, self.next_id));
        let i = choose|i: int| 0 <= i < h.member_ids().len() && h.member_ids()[i] == id;
        assert(h.members[i].1 == id);
        if p != q && other.knows_id(id) {
            let j = choose|j: int| 0 <= j < other.member_ids().len() && other.member_ids()[j] == id;
            if p < q {
                assert(self.hierarchies[p].1.members[i].1 == self.hierarchies[q].1.members[j].1);
            } else {
                assert(self.hierarchies[q].1.members[j].1 == self.hierarchies[p].1.members[i].1);
            }
        }
    }

    /// Where the children stay as they are and no parent loses its type or is
    /// forgotten, parents are aggregates as before.
    proof fn same_parents(self, after: Self)
        requires
            self.parents_are_aggregates(),
            after.hierarchies.len() == self.hierarchies.len(),
            forall|p: int|
                0 <= p < self.hierarchies.len() ==> (
                #[trigger] after.hierarchies[p]).1.parents_are_known(),
            forall|p: int, id: u32|
                #![trigger after.hierarchies[p].1.kids(id)]
                0 <= p < self.hierarchies.len() && after.hierarchies[p].1.kids(id).len() > 0
                    ==> self.hierarchies[p].1.kids(id).len() > 0 && (self.is_aggregate(id)
                    ==> after.is_aggregate(id)),
        ensures
            after.parents_are_aggregates(),
    {
        assert forall|p: int, id: u32|
            #![trigger after.hierarchies[p].1.kids(id)]
            0 <= p < after.hierarchies.len() && after.hierarchies[p].1.kids(id).len()
                > 0 implies after.is_aggregate(id) by {
            assert(self.hierarchies[p].1.kids(id).len() > 0);
        }
    }

    /// A leaf more: parents are aggregates as before.
    proof fn a_new_leaf_keeps_types(self, name: Seq<char>)
        requires
            self.sound(),
            self.parents_are_aggregates(),
            self.next_id < u32::MAX,
        ensures
            self.leaf_made(name).parents_are_aggregates(),
    {
        let leaf = self.leaf_made(name);
        assert forall|p: int| 0 <= p < self.hierarchies.len() implies (
        #[trigger] leaf.hierarchies[p]).1.parents_are_known() by {
            assert(self.hierarchies[p].1.parents_are_known());
            self.hierarchies[p].1.members_come_known(leaf.hierarchies[p].1);
        }
        assert forall|p: int, id: u32|
            #![trigger leaf.hierarchies[p].1.kids(id)]
            0 <= p < self.hierarchies.len() && leaf.hierarchies[p].1.kids(id).len()
                > 0 implies self.hierarchies[p].1.kids(id).len() > 0 && (self.is_aggregate(id)
            ==> leaf.is_aggregate(id)) by {
            assert(self.hierarchies[p].1.kids(id).len() > 0);
            self.a_parent_is_known_once(p, p, id);
        }
        self.same_parents(leaf);
    }

    /// An aggregate more, of a name that the hierarchy did not know: parents are
    /// aggregates as before.
    proof fn a_new_aggregate_keeps_types(self, p: int, name: Seq<char>)
        requires
            self.parents_are_aggregates(),
            0 <= p < self.hierarchies.len(),
            self.hierarchies[p].1.id_of(name) is None,
        ensures
            self.aggregate_made(p, name).parents_are_aggregates(),
            self.aggregate_made(p, name).hierarchies[p].1.knows_id(self.next_id),
    {
        let made = self.aggregate_made(p, name);
        let h = self.hierarchies[p].1;
        assert(made.hierarchies[p].1.members == h.members.push((lowercase(name), self.next_id)));
        assert(made.hierarchies[p].1.member_ids()[h.members.len() as int] == self.next_id);
        assert forall|q: int| 0 <= q < self.hierarchies.len() implies (
        #[trigger] made.hierarchies[q]).1.parents_are_known() by {
            assert(self.hierarchies[q].1.parents_are_known());
            self.hierarchies[q].1.members_come_known(made.hierarchies[q].1);
        }
        assert forall|q: int, id: u32|
            #![trigger made.hierarchies[q].1.kids(id)]
            0 <= q < self.hierarchies.len() && made.hierarchies[q].1.kids(id).len()
                > 0 implies self.hierarchies[q].1.kids(id).len() > 0 && (self.is_aggregate(id)
            ==> made.is_aggregate(id)) by {
            assert(self.hierarchies[q].1.kids(id) == made.hierarchies[q].1.kids(id));
        }
        self.same_parents(made);
    }

    /// A new dimension, and one with a member or a hierarchy more: parents are
    /// aggregates.
    pub proof fn adding_keeps_types(self, hierarchy: Option<Seq<char>>, name: Seq<char>)
        requires
            self.sound(),
            self.parents_are_aggregates(),
            self.next_id < u32::MAX,
        ensures
            Self::fresh(name).parents_are_aggregates(),
            self.leaf_added(name).0.parents_are_aggregates(),
            self.aggregate_added(hierarchy, name).0.parents_are_aggregates(),
            self.hierarchy_created(name).0.parents_are_aggregates(),
    {
        self.a_new_leaf_keeps_types(name);
        let named = self.hierarchy_named(hierarchy);
        place_of_is_first(keys(self.hierarchies), lowercase(named));
        match self.place(named) {
            Some(p) => {
                let here = self.hierarchies[p].1.id_of(name);
                let after = self.aggregate_added(hierarchy, name).0;
                if here is Some && (self.is_aggregate(here->0) || self.leaf(name) != here) {
                    assert forall|q: int| 0 <= q < self.hierarchies.len() implies (
                    #[trigger] after.hierarchies[q]).1.parents_are_known() by {
                        assert(self.hierarchies[q].1.parents_are_known());
                    }
                    self.same_parents(after);
                } else {
                    match self.leaf(name) {
                        Some(id) => {
                            self.a_leaf_has_one_id(name, p);
                            if here != Some(id) {
                                self.other_names_are_no_leaves(p, name);
                            }
                            self.promoting_keeps_types(p, name, id);
                        },
                        None => {
                            self.a_new_aggregate_keeps_types(p, name);
                        },
                    }
                }
            },
            None => {},
        }
        let created = self.hierarchy_created(name).0;
        if self.hierarchy(name) is None {
            with_leaves_same_tree(
                HierarchyModel::<N>::fresh(name),
                self.leaf_names,
                in_turn(self.leaves()),
            );
            assert forall|p: int| 0 <= p < created.hierarchies.len() implies (
            #[trigger] created.hierarchies[p]).1.parents_are_known() by {
                if p < self.hierarchies.len() {
                    assert(self.hierarchies[p].1.parents_are_known());
                }
            }
            assert forall|p: int, id: u32|
                #![trigger created.hierarchies[p].1.kids(id)]
                0 <= p < created.hierarchies.len() && created.hierarchies[p].1.kids(id).len()
                    > 0 implies created.is_aggregate(id) by {
                if p < self.hierarchies.len() {
                    assert(self.hierarchies[p].1.kids(id).len() > 0);
                }
            }
        }
    }

    proof fn promoting_keeps_types(self, p: int, name: Seq<char>, id: u32)
        requires
            self.sound(),
            self.parents_are_aggregates(),
            0 <= p < self.hierarchies.len(),
            self.leaf(name) == Some(id),
            self.leaf_names.contains_key(id),
            self.hierarchies[p].1.id_of(name) == Some(id),
        ensures
            self.promoted(p, name, id).parents_are_aggregates(),
    {
        let after = self.promoted(p, name, id);
        let key = lowercase(name);
        lookup_found(self.leaf_ids, key);
        let at = choose|at: int|
            0 <= at < self.leaf_ids.len() && #[trigger] self.leaf_ids[at] == (key, id);
        assert(lowercase(self.leaf_names[self.leaf_ids[at].1]) == self.leaf_ids[at].0);
        assert forall|q: int| 0 <= q < self.hierarchies.len() implies (
        #[trigger] after.hierarchies[q]).1.parents_are_known() && !self.hierarchies[q].1.names.contains_key(
            id,
        ) && self.hierarchies[q].1.kids(id).len() == 0 by {
            let h = self.hierarchies[q].1;
            assert(self.hierarchies[q].1.parents_are_known());
            assert(h.sound_over(self.leaf_ids, self.leaf_names, self.next_id));
            if h.names.contains_key(id) {
                assert(!self.leaf_names.contains_key(id));
            }
            if h.children.contains_key(id) {
                assert(!self.leaf_names.contains_key(id));
            }
            let rest = h.without_alias(id);
            assert forall|x: u32| #[trigger] rest.kids(x).len() > 0 implies h.kids(x).len() > 0 by {}
            h.a_member_goes_known(rest, id);
            if q == p {
                without_id_members(h.members, id);
                lookup_found(rest.members, key);
                lookup_found(h.members, key);
                let x = choose|x: int|
                    0 <= x < h.members.len() && #[trigger] h.members[x] == (key, id);
                if rest.id_of(name) is Some {
                    let k = choose|k: int|
                        0 <= k < rest.members.len() && #[trigger] rest.members[k] == (
                            key,
                            rest.id_of(name)->0,
                        );
                    let j = choose|j: int| 0 <= j < h.members.len() && h.members[j] == rest.members[k];
                    if j < x {
                        assert(h.members[j].0 != h.members[x].0);
                    } else if x < j {
                        assert(h.members[x].0 != h.members[j].0);
                    }
                }
                assert(after.hierarchies[p].1.members == put(rest.members, key, id));
                rest.members_come_known(after.hierarchies[p].1);
            }
        }
        assert forall|q: int, x: u32|
            #![trigger after.hierarchies[q].1.kids(x)]
            0 <= q < self.hierarchies.len() && after.hierarchies[q].1.kids(x).len()
                > 0 implies self.hierarchies[q].1.kids(x).len() > 0 && (self.is_aggregate(x)
            ==> after.is_aggregate(x)) by {
            assert(after.hierarchies[q].1.parents_are_known());
        }
        self.same_parents(after);
    }

    /// Putting a child under a parent keeps parents aggregates while there are ids
    /// left for both.
    pub proof fn linking_keeps_types(
        self,
        hierarchy: Option<Seq<char>>,
        parent: Seq<char>,
        child: Seq<char>,
        weight: N,
    )
        requires
            self.sound(),
            self.one_parent_each(),
            self.parents_are_aggregates(),
            self.next_id < u32::MAX - 1,
        ensures
            self.component_added(hierarchy, parent, child, weight).0.parents_are_aggregates(),
    {
        let named = self.hierarchy_named(hierarchy);
        place_of_is_first(keys(self.hierarchies), lowercase(named));
        match self.place(named) {
            None => {},
            Some(p) => {
                self.adding_keeps_types(Some(named), parent);
                self.adding_an_aggregate_keeps_sound(Some(named), parent);
                self.adding_keeps_one_parent(Some(named), parent);
                match self.aggregate_added(Some(named), parent) {
                    (with_parent, Err(_)) => {},
                    (with_parent, Ok(parent_id)) => {
                        let h = with_parent.hierarchies[p].1;
                        lookup_found(h.members, lowercase(parent));
                        let at = choose|at: int|
                            0 <= at < h.members.len() && #[trigger] h.members[at] == (
                                lowercase(parent),
                                parent_id,
                            );
                        assert(h.member_ids()[at] == parent_id);
                        assert(with_parent.is_aggregate(parent_id));
                        with_parent.adding_keeps_types(None, child);
                        with_parent.adding_a_leaf_keeps_sound(child);
                        with_parent.adding_keeps_one_parent(None, child);
                        if h.id_of(child) is None {
                            with_parent.a_new_aggregate_keeps_types(p, child);
                            assert(with_parent.aggregate_made(p, child).one_parent_each());
                            if with_parent.leaf(child) is None {
                                with_parent.new_aggregate_keeps_sound(p, child);
                            }
                        }
                        let (with_child, child_id) = with_parent.child_found(p, child);
                        assert(with_child.sound());
                        assert(with_child.is_aggregate(parent_id));
                        assert(with_child.hierarchies[p].1.members[at] == h.members[at]);
                        assert(with_child.hierarchies[p].1.member_ids()[at] == parent_id);
                        with_child.a_link_keeps_types(p, parent_id, child_id, weight);
                    },
                }
            },
        }
    }

    proof fn a_link_keeps_types(self, p: int, parent: u32, child: u32, weight: N)
        requires
            self.sound(),
            self.one_parent_each(),
            self.parents_are_aggregates(),
            0 <= p < self.hierarchies.len(),
            self.is_aggregate(parent),
            self.hierarchies[p].1.knows_id(parent),
        ensures
            self.component_linked(p, parent, child, weight).0.parents_are_aggregates(),
    {
        let h = self.hierarchies[p].1;
        let linked = h.linked(parent, child, weight);
        let after = self.component_linked(p, parent, child, weight).0;
        assert(self.hierarchies[p].1.one_parent_each());
        assert(self.hierarchies[p].1.parents_are_known());
        assert forall|id: u32| #[trigger] linked.kids(id).len() > 0 implies id == parent || h.kids(
            id,
        ).len() > 0 by {
            match h.left_parent(parent, child) {
                Some(former) => {
                    if id == former {
                        kids_without_are_fewer(h.kids(id), child);
                    }
                },
                None => {},
            }
        }
        assert forall|q: int| 0 <= q < after.hierarchies.len() implies (
        #[trigger] after.hierarchies[q]).1.parents_are_known() by {
            assert(self.hierarchies[q].1.parents_are_known());
            if q == p {
                assert forall|id: u32| #[trigger] linked.kids(id).len() > 0 implies linked.knows_id(
                    id,
                ) by {
                    assert(linked.member_ids() == h.member_ids());
                    if id != parent {
                        assert(h.kids(id).len() > 0);
                    }
                }
            }
        }
        assert forall|q: int, id: u32|
            #![trigger after.hierarchies[q].1.kids(id)]
            0 <= q < after.hierarchies.len() && after.hierarchies[q].1.kids(id).len()
                > 0 implies after.is_aggregate(id) by {
            if q != p || id != parent {
                assert(self.hierarchies[q].1.kids(id).len() > 0);
            }
            match h.left_parent(parent, child) {
                Some(former) => {
                    assert(h.is_under(child, former));
                    if q != p && id == former {
                        self.a_parent_is_known_once(q, p, id);
                        let kids = h.kids(former);
                        assert(kids.len() > 0);
                        assert(h.knows_id(former));
                    }
                },
                None => {},
            }
        }
    }

    /// Taking a child from under its parent keeps parents aggregates.
    pub proof fn unlinking_keeps_types(
        self,
        hierarchy: Option<Seq<char>>,
        parent: Seq<char>,
        child: Seq<char>,
    )
        requires
            self.sound(),
            self.parents_are_aggregates(),
        ensures
            self.component_removed(hierarchy, parent, child).0.parents_are_aggregates(),
    {
        let named = self.hierarchy_named(hierarchy);
        place_of_is_first(keys(self.hierarchies), lowercase(named));
        let after = self.component_removed(hierarchy, parent, child).0;
        if self.component_removed(hierarchy, parent, child).1 is Ok {
            let p = self.place(named)->0;
            let h = self.hierarchies[p].1;
            let parent_id = h.id_of(parent)->0;
            let child_id = h.id_of(child)->0;
            kids_without_are_fewer(h.kids(parent_id), child_id);
            assert(h.kids(parent_id).len() > 0);
            assert forall|q: int, id: u32|
                #![trigger after.hierarchies[q].1.kids(id)]
                0 <= q < self.hierarchies.len() && after.hierarchies[q].1.kids(id).len()
                    > 0 implies self.hierarchies[q].1.kids(id).len() > 0 && (self.is_aggregate(id)
                ==> after.is_aggregate(id)) by {
                if q != p {
                    assert(self.hierarchies[q].1.kids(id).len() > 0);
                    if id == parent_id {
                        self.a_parent_is_known_once(q, p, id);
                        assert(self.hierarchies[p].1.parents_are_known());
                        assert(h.knows_id(parent_id));
                    }
                }
            }
            assert forall|q: int| 0 <= q < self.hierarchies.len() implies (
            #[trigger] after.hierarchies[q]).1.parents_are_known() by {
                let now = after.hierarchies[q].1;
                assert(self.hierarchies[q].1.parents_are_known());
                assert(now.member_ids() == self.hierarchies[q].1.member_ids());
                assert forall|id: u32| #[trigger] now.kids(id).len() > 0 implies now.knows_id(id) by {
                    assert(after.hierarchies[q].1.kids(id).len() > 0);
                }
            }
            self.same_parents(after);
        }
    }

    /// A child is taken from under a parent exactly when it is there.
    pub proof fn detaching_succeeds_under_the_parent(
        self,
        hierarchy: Option<Seq<char>>,
        parent: Seq<char>,
        child: Seq<char>,
    )
        requires
            self.parents_are_aggregates(),
        ensures
            self.component_removed(hierarchy, parent, child).1 is Ok <==> ({
                let place = self.place(self.hierarchy_named(hierarchy));
                let h = self.hierarchies[place->0].1;
                &&& place is Some
                &&& h.id_of(parent) is Some
                &&& h.id_of(child) is Some
                &&& h.is_under(h.id_of(child)->0, h.id_of(parent)->0)
            }),
    {
        let named = self.hierarchy_named(hierarchy);
        place_of_is_first(keys(self.hierarchies), lowercase(named));
        match self.place(named) {
            Some(p) => {
                let h = self.hierarchies[p].1;
                match (h.id_of(parent), h.id_of(child)) {
                    (Some(parent_id), Some(child_id)) => {
                        kids_without_are_fewer(h.kids(parent_id), child_id);
                        if h.is_under(child_id, parent_id) {
                            assert(h.kids(parent_id).len() > 0);
                            assert(self.is_aggregate(parent_id));
                        }
                    },
                    _ => {},
                }
            },
            None => {},
        }
    }

    /// Putting a member elsewhere among its siblings, another default member, and
    /// display orders brought up to date, keep parents aggregates.
    pub proof fn upkeep_keeps_types(
        self,
        hierarchy: Option<Seq<char>>,
        name: Seq<char>,
        reference: Seq<char>,
    )
        requires
            self.parents_are_aggregates(),
        ensures
            self.moved_before(hierarchy, name, reference).0.parents_are_aggregates(),
            self.moved_to_front(hierarchy, name).0.parents_are_aggregates(),
            self.default_set(name).0.parents_are_aggregates(),
            self.ensured_in(hierarchy).parents_are_aggregates(),
            self.ensured().parents_are_aggregates(),
            self.rebuilt().parents_are_aggregates(),
    {
        let named = self.hierarchy_named(hierarchy);
        place_of_is_first(keys(self.hierarchies), lowercase(named));
        self.as_many_children(self.default_set(name).0);
        self.as_many_children(self.ensured_in(hierarchy));
        self.as_many_children(self.ensured());
        self.as_many_children(self.rebuilt());
        match self.place(named) {
            Some(p) => {
                let h = self.hierarchies[p].1;
                match h.id_of(name) {
                    Some(id) => {
                        place_of_id_is_first(
                            child_ids(h.kids(h.parent[id])),
                            id,
                        );
                        assert forall|x: u32| (#[trigger] h.moved_to_front(id).kids(x)).len()
                            == h.kids(x).len() by {}
                        self.as_many_children(self.moved_to_front(hierarchy, name).0);
                        match h.id_of(reference) {
                            Some(other) => {
                                let kids = h.kids(h.parent[id]);
                                let i = place_of_id(child_ids(kids), id);
                                if i is Some {
                                    place_of_id_is_first(
                                        child_ids(kids).remove(i->0),
                                        other,
                                    );
                                }
                                assert forall|x: u32| (#[trigger] h.moved_before(id, other).kids(
                                    x,
                                )).len() == h.kids(x).len() by {}
                                self.as_many_children(
                                    self.moved_before(hierarchy, name, reference).0,
                                );
                            },
                            None => {},
                        }
                    },
                    None => {},
                }
            },
            None => {},
        }
    }

    /// What has as many children everywhere has the same parents.
    proof fn as_many_children(self, after: Self)
        requires
            self.parents_are_aggregates(),
            after.types == self.types,
            after.hierarchies.len() == self.hierarchies.len(),
            forall|p: int|
                0 <= p < self.hierarchies.len() ==> (#[trigger] after.hierarchies[p]).1.members
                    == self.hierarchies[p].1.members,
            forall|p: int, id: u32|
                #![trigger after.hierarchies[p].1.kids(id)]
                0 <= p < self.hierarchies.len() ==> after.hierarchies[p].1.kids(id).len()
                    == self.hierarchies[p].1.kids(id).len(),
        ensures
            after.parents_are_aggregates(),
    {
        assert forall|p: int| 0 <= p < self.hierarchies.len() implies (
        #[trigger] after.hierarchies[p]).1.parents_are_known() by {
            let now = after.hierarchies[p].1;
            assert(self.hierarchies[p].1.parents_are_known());
            assert(now.members == self.hierarchies[p].1.members);
            assert forall|id: u32| #[trigger] now.kids(id).len() > 0 implies now.knows_id(id) by {
                assert(after.hierarchies[p].1.kids(id).len() > 0);
                assert(self.hierarchies[p].1.kids(id).len() > 0);
                assert(now.member_ids() == self.hierarchies[p].1.member_ids());
            }
        }
        self.same_parents(after);
    }

    /// Deleting a member keeps parents aggregates.
    pub proof fn deleting_keeps_types(self, name: Seq<char>)
        requires
            self.sound(),
            self.parents_are_aggregates(),
        ensures
            self.member_deleted(name).0.parents_are_aggregates(),
    {
        let (rest, first) = self.leaf_left(name);
        let ids = first + ids_known(rest.hierarchies, name);
        match self.leaf(name) {
            Some(id) => {
                self.a_leaf_goes_with_its_type(name, id);
                self.deleting_a_leaf_keeps_sound(name, id);
            },
            None => {},
        }
        let left = rest.aggregates_deleted(name);
        assert forall|q: int| 0 <= q < rest.hierarchies.len() implies (
        #[trigger] left.hierarchies[q]).1.parents_are_known() by {
            assert(rest.hierarchies[q].1.parents_are_known());
            match rest.hierarchies[q].1.id_of(name) {
                Some(id) => {
                    rest.hierarchies[q].1.removal_makes_no_parents(id);
                    rest.hierarchies[q].1.a_member_goes_known(left.hierarchies[q].1, id);
                },
                None => {},
            }
        }
        assert forall|q: int, x: u32|
            #![trigger left.hierarchies[q].1.kids(x)]
            0 <= q < rest.hierarchies.len() && left.hierarchies[q].1.kids(x).len()
                > 0 implies rest.hierarchies[q].1.kids(x).len() > 0 && (rest.is_aggregate(x)
            ==> left.is_aggregate(x)) by {
            if rest.hierarchies[q].1.id_of(name) is Some {
                rest.hierarchies[q].1.removal_makes_no_parents(
                    rest.hierarchies[q].1.id_of(name)->0,
                );
            }
            assert(rest.hierarchies[q].1.kids(x).len() > 0);
            assert(rest.is_aggregate(x));
            assert forall|r: int| 0 <= r < rest.hierarchies.len() implies ((
            #[trigger] rest.hierarchies[r]).1.id_of(name) matches Some(id) ==> x != id && (
            rest.hierarchies[r].1.without_member(id).knows_id(x)
                ==> rest.hierarchies[r].1.without_member(id).kids(x).len() > 0)) by {
                let h = rest.hierarchies[r].1;
                match h.id_of(name) {
                    Some(id) => {
                        rest.a_parent_is_known_once(q, r, x);
                        lookup_found(h.members, lowercase(name));
                        let at = choose|at: int|
                            0 <= at < h.members.len() && #[trigger] h.members[at] == (
                                lowercase(name),
                                id,
                            );
                        assert(h.member_ids()[at] == id);
                        h.removal_makes_no_parents(id);
                        without_id_members(h.members, id);
                        let now = h.without_member(id);
                        if now.knows_id(x) {
                            let k = choose|k: int|
                                0 <= k < now.member_ids().len() && now.member_ids()[k] == x;
                            assert(h.members.contains(now.members[k]));
                            let j = choose|j: int|
                                0 <= j < h.members.len() && h.members[j] == now.members[k];
                            assert(h.member_ids()[j] == x);
                        }
                    },
                    None => {},
                }
            }
            parents_stay_aggregates(rest.types, rest.hierarchies, name, x);
        }
        rest.same_parents(left);
        left.defaults_spare_the_rest(ids);
        left.as_many_children(left.defaults_fixed(ids));
    }

    proof fn a_leaf_goes_with_its_type(self, name: Seq<char>, id: u32)
        requires
            self.sound(),
            self.parents_are_aggregates(),
            self.leaf(name) == Some(id),
        ensures
            self.leaf_deleted(name, id).parents_are_aggregates(),
    {
        let rest = self.leaf_deleted(name, id);
        lookup_found(self.leaf_ids, lowercase(name));
        let at = choose|at: int|
            0 <= at < self.leaf_ids.len() && #[trigger] self.leaf_ids[at] == (lowercase(name), id);
        assert(self.leaf_names.contains_key(self.leaf_ids[at].1));
        assert forall|q: int| 0 <= q < self.hierarchies.len() implies (
        #[trigger] rest.hierarchies[q]).1.parents_are_known() by {
            assert(self.hierarchies[q].1.parents_are_known());
            self.hierarchies[q].1.removal_makes_no_parents(id);
            self.hierarchies[q].1.a_member_goes_known(rest.hierarchies[q].1, id);
        }
        assert forall|q: int, x: u32|
            #![trigger rest.hierarchies[q].1.kids(x)]
            0 <= q < self.hierarchies.len() && rest.hierarchies[q].1.kids(x).len()
                > 0 implies self.hierarchies[q].1.kids(x).len() > 0 && (self.is_aggregate(x)
            ==> rest.is_aggregate(x)) by {
            self.hierarchies[q].1.removal_makes_no_parents(id);
            assert(self.hierarchies[q].1.kids(x).len() > 0);
            self.a_parent_is_known_once(q, q, x);
        }
        self.same_parents(rest);
    }
}

} // verus!
