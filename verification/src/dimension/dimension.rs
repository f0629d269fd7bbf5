use crate::dimension::hierarchy::{Hierarchy, HierarchyModel};
use crate::number::Number;
use crate::storage::id_map::{in_turn, sorted_keys, viewed, viewed_insert, viewed_remove};
use crate::storage::name_map::{
    entries_of, find_id, find_key, keys, lookup, remove_key, without_key,
};
use crate::text::{
    cat3, cat5, cat7, in_order, lines, lines_of_one, lowercase, optional, optional_word, ordered,
    place_of, push_line, sort_texts, sorted, texts, to_lowercase, told, told_name,
};
use std::collections::BTreeMap;
use vstd::prelude::*;

verus! {

broadcast use {
    vstd::std_specs::btree::group_btree_axioms,
    vstd::laws_cmp::group_laws_cmp,
    viewed_insert,
    viewed_remove,
};

/// Whether a member holds data itself or is the sum of others.
#[derive(Clone, Copy, PartialEq, Eq, Debug, Structural)]
pub enum MemberType {
    Leaf,
    Consolidated,
}

/// A dimension: a bank of leaves, and hierarchies that consolidate these same
/// leaves in different ways.
///
/// Leaves live once and belong to every hierarchy; aggregates belong to one.
/// Ids of both come from one counter, so a cell coordinate means the same
/// member whatever hierarchy it is seen through. A dimension has a default
/// hierarchy named after itself.
pub struct Dimension<N> {
    pub name: String,
    /// The id of each leaf by its lower-case name, in order of creation.
    pub leaf_ids: Vec<(String, u32)>,
    /// The name of each leaf as it was given.
    pub leaf_names: BTreeMap<u32, String>,
    /// The hierarchies by lower-case name, in order of creation.
    pub hierarchies: Vec<(String, Hierarchy<N>)>,
    pub default_hierarchy: String,
    pub member_types: BTreeMap<u32, MemberType>,
    pub next_id: u32,
    pub default_member_id: Option<u32>,
}

/// What a dimension holds.
#[verifier::ext_equal]
pub struct DimensionModel<N> {
    pub name: Seq<char>,
    pub leaf_ids: Seq<(Seq<char>, u32)>,
    pub leaf_names: Map<u32, Seq<char>>,
    pub hierarchies: Seq<(Seq<char>, HierarchyModel<N>)>,
    pub default_hierarchy: Seq<char>,
    pub types: Map<u32, MemberType>,
    pub next_id: u32,
    pub default_member_id: Option<u32>,
}

/// Hierarchies by name.
pub open spec fn models<N: Number>(hierarchies: Seq<(String, Hierarchy<N>)>) -> Seq<
    (Seq<char>, HierarchyModel<N>),
> {
    Seq::new(hierarchies.len(), |i: int| (hierarchies[i].0@, hierarchies[i].1@))
}

impl<N: Number> View for Dimension<N> {
    type V = DimensionModel<N>;

    open spec fn view(&self) -> DimensionModel<N> {
        DimensionModel {
            name: self.name@,
            leaf_ids: entries_of(self.leaf_ids@),
            leaf_names: viewed(self.leaf_names@),
            hierarchies: models(self.hierarchies@),
            default_hierarchy: self.default_hierarchy@,
            types: self.member_types@,
            next_id: self.next_id,
            default_member_id: self.default_member_id,
        }
    }
}

// ---------------------------------------------------------------------------
// What the operations do
// ---------------------------------------------------------------------------

/// The counter after an id was taken; it starts over when its 32 bits are used
/// up.
pub open spec fn after_id(id: u32) -> u32 {
    if id == u32::MAX {
        0
    } else {
        (id + 1) as u32
    }
}

/// Every hierarchy changed in the same way.
pub open spec fn each<N>(
    hierarchies: Seq<(Seq<char>, HierarchyModel<N>)>,
    change: spec_fn(HierarchyModel<N>) -> HierarchyModel<N>,
) -> Seq<(Seq<char>, HierarchyModel<N>)> {
    Seq::new(hierarchies.len(), |i: int| (hierarchies[i].0, change(hierarchies[i].1)))
}

/// One hierarchy changed.
pub open spec fn set_at<N>(
    hierarchies: Seq<(Seq<char>, HierarchyModel<N>)>,
    i: int,
    hierarchy: HierarchyModel<N>,
) -> Seq<(Seq<char>, HierarchyModel<N>)> {
    hierarchies.update(i, (hierarchies[i].0, hierarchy))
}

/// The first name that a hierarchy has for `id`.
pub open spec fn name_in_any<N: Number>(
    hierarchies: Seq<(Seq<char>, HierarchyModel<N>)>,
    id: u32,
) -> Option<Seq<char>>
    decreases hierarchies.len(),
{
    if hierarchies.len() == 0 {
        None
    } else {
        match name_in_any(hierarchies.drop_last(), id) {
            Some(name) => Some(name),
            None => hierarchies.last().1.name_of(id),
        }
    }
}

/// The hierarchy whose name comes first among those that know `member`.
pub open spec fn first_by_name<N: Number>(
    hierarchies: Seq<(Seq<char>, HierarchyModel<N>)>,
    member: Seq<char>,
) -> Option<int>
    decreases hierarchies.len(),
{
    if hierarchies.len() == 0 {
        None
    } else {
        let last = hierarchies.last();
        match first_by_name(hierarchies.drop_last(), member) {
            Some(i) => if last.1.id_of(member) is Some && !in_order(hierarchies[i].0, last.0) {
                Some(hierarchies.len() - 1)
            } else {
                Some(i)
            },
            None => if last.1.id_of(member) is Some {
                Some(hierarchies.len() - 1)
            } else {
                None
            },
        }
    }
}

impl<N: Number> HierarchyModel<N> {
    /// The hierarchy without the member of that name.
    pub open spec fn without_named(self, name: Seq<char>) -> Self {
        match self.id_of(name) {
            Some(id) => self.without_member(id),
            None => self,
        }
    }
}

/// The ids that the hierarchies have for `member`, in the order in which they
/// were created.
pub open spec fn ids_known<N: Number>(
    hierarchies: Seq<(Seq<char>, HierarchyModel<N>)>,
    member: Seq<char>,
) -> Seq<u32>
    decreases hierarchies.len(),
{
    if hierarchies.len() == 0 {
        Seq::empty()
    } else {
        let before = ids_known(hierarchies.drop_last(), member);
        match hierarchies.last().1.id_of(member) {
            Some(id) => before.push(id),
            None => before,
        }
    }
}

/// The types after `member` has left the hierarchies that know it. Those of the
/// members that are left there are as their children say.
pub open spec fn types_left<N: Number>(
    types: Map<u32, MemberType>,
    hierarchies: Seq<(Seq<char>, HierarchyModel<N>)>,
    member: Seq<char>,
) -> Map<u32, MemberType>
    decreases hierarchies.len(),
{
    if hierarchies.len() == 0 {
        types
    } else {
        let before = types_left(types, hierarchies.drop_last(), member);
        let last = hierarchies.last().1;
        match last.id_of(member) {
            Some(id) => retyped(before.remove(id), last.without_member(id)),
            None => before,
        }
    }
}

/// A hierarchy with the leaves made known in it, in the order of their ids.
pub open spec fn with_leaves<N: Number>(
    hierarchy: HierarchyModel<N>,
    leaf_names: Map<u32, Seq<char>>,
    ids: Seq<u32>,
) -> HierarchyModel<N>
    decreases ids.len(),
{
    if ids.len() == 0 {
        hierarchy
    } else {
        with_leaves(hierarchy, leaf_names, ids.drop_last()).with_leaf(
            leaf_names[ids.last()],
            ids.last(),
        )
    }
}

/// The least id.
pub open spec fn least_id(entries: Seq<(Seq<char>, u32)>) -> Option<u32>
    decreases entries.len(),
{
    if entries.len() == 0 {
        None
    } else {
        let id = entries.last().1;
        match least_id(entries.drop_last()) {
            Some(least) => if id < least {
                Some(id)
            } else {
                Some(least)
            },
            None => Some(id),
        }
    }
}

/// How many of the ids are no leaves.
pub open spec fn count_outside(ids: Seq<u32>, leaves: Set<u32>) -> nat
    decreases ids.len(),
{
    if ids.len() == 0 {
        0
    } else {
        count_outside(ids.drop_last(), leaves) + if leaves.contains(ids.last()) {
            0nat
        } else {
            1nat
        }
    }
}

/// How many aggregates the hierarchies have.
pub open spec fn aggregate_count<N: Number>(
    hierarchies: Seq<(Seq<char>, HierarchyModel<N>)>,
    leaves: Set<u32>,
) -> nat
    decreases hierarchies.len(),
{
    if hierarchies.len() == 0 {
        0
    } else {
        aggregate_count(hierarchies.drop_last(), leaves) + count_outside(
            hierarchies.last().1.member_ids(),
            leaves,
        )
    }
}

/// The type of every member of a hierarchy, as its children say.
pub open spec fn retyped<N: Number>(
    types: Map<u32, MemberType>,
    hierarchy: HierarchyModel<N>,
) -> Map<u32, MemberType> {
    let ids = hierarchy.member_ids();
    Map::new(
        |id: u32| types.contains_key(id) || ids.contains(id),
        |id: u32|
            if !ids.contains(id) {
                types[id]
            } else if hierarchy.kids(id).len() > 0 {
                MemberType::Consolidated
            } else {
                MemberType::Leaf
            },
    )
}

pub open spec fn no_such_hierarchy(hierarchy: Seq<char>, dimension: Seq<char>) -> Seq<char> {
    "Hierarchy '"@ + hierarchy + "' does not exist in dimension '"@ + dimension + "'."@
}

pub open spec fn no_such_member(member: Seq<char>, dimension: Seq<char>) -> Seq<char> {
    "Member '"@ + member + "' does not exist in dimension '"@ + dimension + "'."@
}

impl<N: Number> DimensionModel<N> {
    /// A dimension without members; it has its default hierarchy.
    pub open spec fn fresh(name: Seq<char>) -> Self {
        DimensionModel {
            name,
            leaf_ids: Seq::empty(),
            leaf_names: Map::empty(),
            hierarchies: seq![(lowercase(name), HierarchyModel::fresh(name))],
            default_hierarchy: name,
            types: Map::empty(),
            next_id: 1,
            default_member_id: None,
        }
    }

    /// The place of the hierarchy of that name, in any case.
    pub open spec fn place(self, hierarchy: Seq<char>) -> Option<int> {
        place_of(keys(self.hierarchies), lowercase(hierarchy))
    }

    pub open spec fn hierarchy(self, name: Seq<char>) -> Option<HierarchyModel<N>> {
        lookup(self.hierarchies, lowercase(name))
    }

    /// The hierarchy that is meant: by its name, or else the default one.
    pub open spec fn hierarchy_named(self, name: Option<Seq<char>>) -> Seq<char> {
        match name {
            Some(name) => name,
            None => self.default_hierarchy,
        }
    }

    pub open spec fn resolved(self, name: Option<Seq<char>>) -> Option<HierarchyModel<N>> {
        self.hierarchy(self.hierarchy_named(name))
    }

    pub open spec fn leaf(self, name: Seq<char>) -> Option<u32> {
        lookup(self.leaf_ids, lowercase(name))
    }

    pub open spec fn leaves(self) -> Set<u32> {
        self.leaf_names.dom()
    }

    pub open spec fn is_aggregate(self, id: u32) -> bool {
        self.types.contains_key(id) && self.types[id] == MemberType::Consolidated
    }

    /// The name of an id: of a leaf, else of an aggregate of any hierarchy.
    pub open spec fn name_of(self, id: u32) -> Seq<char> {
        if self.leaf_names.contains_key(id) {
            self.leaf_names[id]
        } else {
            match name_in_any(self.hierarchies, id) {
                Some(name) => name,
                None => "Unknown"@,
            }
        }
    }

    /// The id of a member: of a leaf, else in the default hierarchy, else in
    /// the other hierarchies in the order of their names.
    pub open spec fn id_of(self, member: Seq<char>) -> Option<u32> {
        match self.leaf(member) {
            Some(id) => Some(id),
            None => match self.id_in(None, member) {
                Some(id) => Some(id),
                None => match first_by_name(self.hierarchies, member) {
                    Some(i) => self.hierarchies[i].1.id_of(member),
                    None => None,
                },
            },
        }
    }

    /// The id of a member in one hierarchy.
    pub open spec fn id_in(self, hierarchy: Option<Seq<char>>, member: Seq<char>) -> Option<u32> {
        match self.resolved(hierarchy) {
            Some(h) => h.id_of(member),
            None => None,
        }
    }

    pub open spec fn consolidated_in(self, hierarchy: Option<Seq<char>>, member: Seq<char>) -> bool {
        match self.id_in(hierarchy, member) {
            Some(id) => self.is_aggregate(id),
            None => false,
        }
    }

    pub open spec fn hierarchy_created(self, name: Seq<char>) -> (Self, Result<(), Seq<char>>) {
        if self.hierarchy(name) is Some {
            (
                self,
                Err(
                    "Hierarchy '"@ + name + "' already exists in dimension '"@ + self.name + "'."@,
                ),
            )
        } else {
            let leaves = with_leaves(
                HierarchyModel::fresh(name),
                self.leaf_names,
                in_turn(self.leaves()),
            );
            (
                DimensionModel {
                    hierarchies: self.hierarchies.push((lowercase(name), leaves.rebuilt())),
                    ..self
                },
                Ok(()),
            )
        }
    }

    /// The dimension with a member of that name, and its id: the leaf or the
    /// member of the default hierarchy that there is, or else a new leaf.
    pub open spec fn leaf_added(self, name: Seq<char>) -> (Self, u32) {
        match self.leaf(name) {
            Some(id) => (self, id),
            None => match self.id_in(None, name) {
                Some(id) => (self, id),
                None => (self.leaf_made(name), self.next_id),
            },
        }
    }

    /// The dimension with a new leaf, which every hierarchy knows that has no
    /// aggregate of its name.
    pub open spec fn leaf_made(self, name: Seq<char>) -> Self {
        let id = self.next_id;
        DimensionModel {
            leaf_ids: self.leaf_ids.push((lowercase(name), id)),
            leaf_names: self.leaf_names.insert(id, name),
            hierarchies: each(
                self.hierarchies,
                |h: HierarchyModel<N>| h.with_leaf(name, id),
            ),
            types: self.types.insert(id, MemberType::Leaf),
            next_id: after_id(id),
            default_member_id: match self.default_member_id {
                Some(d) => Some(d),
                None => Some(id),
            },
            ..self
        }
    }

    /// The dimension with a new aggregate of the hierarchy at `p`.
    pub open spec fn aggregate_made(self, p: int, name: Seq<char>) -> Self {
        let id = self.next_id;
        DimensionModel {
            hierarchies: set_at(
                self.hierarchies,
                p,
                self.hierarchies[p].1.with_aggregate(name, id),
            ),
            types: self.types.insert(id, MemberType::Consolidated),
            next_id: after_id(id),
            ..self
        }
    }

    /// The dimension with `name` as an aggregate of one hierarchy, and its id.
    /// A member that the hierarchy knows keeps its id. Where that is a leaf it is
    /// promoted: it leaves the bank.
    pub open spec fn aggregate_added(self, hierarchy: Option<Seq<char>>, name: Seq<char>) -> (
        Self,
        Result<u32, Seq<char>>,
    ) {
        let key = self.hierarchy_named(hierarchy);
        match self.place(key) {
            None => (self, Err(no_such_hierarchy(key, self.name))),
            Some(p) => {
                let here = self.hierarchies[p].1.id_of(name);
                if here is Some && (self.is_aggregate(here->0) || self.leaf(name) != here) {
                    (
                        DimensionModel {
                            types: self.types.insert(here->0, MemberType::Consolidated),
                            ..self
                        },
                        Ok(here->0),
                    )
                } else {
                    match self.leaf(name) {
                        Some(id) => (self.promoted(p, name, id), Ok(id)),
                        None => (self.aggregate_made(p, name), Ok(self.next_id)),
                    }
                }
            },
        }
    }

    /// The dimension with a leaf made an aggregate of the hierarchy at `p`.
    pub open spec fn promoted(self, p: int, name: Seq<char>, id: u32) -> Self {
        let original = if self.leaf_names.contains_key(id) {
            self.leaf_names[id]
        } else {
            name
        };
        let rest = each(self.hierarchies, |h: HierarchyModel<N>| h.without_alias(id));
        DimensionModel {
            leaf_ids: without_key(self.leaf_ids, lowercase(name)),
            leaf_names: self.leaf_names.remove(id),
            hierarchies: set_at(rest, p, rest[p].1.with_aggregate(original, id)),
            types: self.types.insert(id, MemberType::Consolidated),
            ..self
        }
    }

    /// The dimension with the child that `name` means in the hierarchy at `p`: a
    /// member of it, else a leaf, which is made where there is none. Where the
    /// name is that of an aggregate of the default hierarchy it cannot be a leaf,
    /// and is made an aggregate of this one too.
    pub open spec fn child_found(self, p: int, name: Seq<char>) -> (Self, u32) {
        match self.hierarchies[p].1.id_of(name) {
            Some(id) => (self, id),
            None => if self.leaf(name) is None && self.id_in(None, name) is Some {
                (self.aggregate_made(p, name), self.next_id)
            } else {
                self.leaf_added(name)
            },
        }
    }

    /// The dimension with `child` under `parent`, and the name of the parent
    /// that the child has left.
    pub open spec fn component_added(
        self,
        hierarchy: Option<Seq<char>>,
        parent: Seq<char>,
        child: Seq<char>,
        weight: N,
    ) -> (Self, Result<Option<Seq<char>>, Seq<char>>) {
        let key = self.hierarchy_named(hierarchy);
        match self.place(key) {
            None => (self, Err(no_such_hierarchy(key, self.name))),
            Some(p) => match self.aggregate_added(Some(key), parent) {
                (with_parent, Err(e)) => (with_parent, Err(e)),
                (with_parent, Ok(parent_id)) => {
                    let (with_child, child_id) = with_parent.child_found(p, child);
                    with_child.component_linked(p, parent_id, child_id, weight)
                },
            },
        }
    }

    /// The dimension with the child under the parent in the hierarchy at `p`.
    /// A parent that has lost its last child is a leaf.
    pub open spec fn component_linked(self, p: int, parent: u32, child: u32, weight: N) -> (
        Self,
        Result<Option<Seq<char>>, Seq<char>>,
    ) {
        let before = self.hierarchies[p].1;
        let after = before.linked(parent, child, weight);
        let linked = DimensionModel {
            hierarchies: set_at(self.hierarchies, p, after),
            ..self
        };
        match before.left_parent(parent, child) {
            None => (linked, Ok(None)),
            Some(former) => (
                DimensionModel {
                    types: if after.kids(former).len() == 0 {
                        self.types.insert(former, MemberType::Leaf)
                    } else {
                        self.types
                    },
                    ..linked
                },
                Ok(Some(linked.name_of(former))),
            ),
        }
    }

    /// The dimension with `child` no longer under `parent`.
    pub open spec fn component_removed(
        self,
        hierarchy: Option<Seq<char>>,
        parent: Seq<char>,
        child: Seq<char>,
    ) -> (Self, Result<(), Seq<char>>) {
        let key = self.hierarchy_named(hierarchy);
        match self.place(key) {
            None => (self, Err(no_such_hierarchy(key, self.name))),
            Some(p) => {
                let h = self.hierarchies[p].1;
                match (h.id_of(parent), h.id_of(child)) {
                    (None, _) => (self, Err(no_such_member(parent, self.name))),
                    (_, None) => (self, Err(no_such_member(child, self.name))),
                    (Some(parent_id), Some(child_id)) => if !self.is_aggregate(parent_id) {
                        (
                            self,
                            Err(
                                "Member '"@ + parent + "' is not a parent in dimension '"@
                                    + self.name + "'."@,
                            ),
                        )
                    } else {
                        match h.drops(parent_id, child_id) {
                            None => (self, Err("Member '"@ + parent + "' has no children."@)),
                            Some(false) => (
                                self,
                                Err("'"@ + child + "' is not a child of '"@ + parent + "'."@),
                            ),
                            Some(true) => (self.component_cut(p, parent_id, child_id), Ok(())),
                        }
                    },
                }
            },
        }
    }

    /// The dimension with the child at the top level of the hierarchy at `p`.
    pub open spec fn component_cut(self, p: int, parent: u32, child: u32) -> Self {
        let h = self.hierarchies[p].1;
        let cut = HierarchyModel { children: h.cut(parent, child), ..h };
        DimensionModel {
            hierarchies: set_at(self.hierarchies, p, cut.detached(child)),
            types: if cut.kids(parent).len() == 0 {
                self.types.insert(parent, MemberType::Leaf)
            } else {
                self.types
            },
            ..self
        }
    }

    /// The dimension with another default member where `id` was it: the leaf
    /// with the least id.
    pub open spec fn default_fixed(self, id: u32) -> Self {
        if self.default_member_id == Some(id) {
            DimensionModel { default_member_id: least_id(self.leaf_ids), ..self }
        } else {
            self
        }
    }

    /// The dimension with another default member where one of the ids was it.
    pub open spec fn defaults_fixed(self, ids: Seq<u32>) -> Self
        decreases ids.len(),
    {
        if ids.len() == 0 {
            self
        } else {
            self.defaults_fixed(ids.drop_last()).default_fixed(ids.last())
        }
    }

    /// The dimension without a leaf: it goes from the bank and from every
    /// hierarchy.
    pub open spec fn leaf_deleted(self, name: Seq<char>, id: u32) -> Self {
        DimensionModel {
            leaf_ids: without_key(self.leaf_ids, lowercase(name)),
            leaf_names: self.leaf_names.remove(id),
            hierarchies: each(self.hierarchies, |h: HierarchyModel<N>| h.without_member(id)),
            types: self.types.remove(id),
            ..self
        }
    }

    /// The dimension without the aggregates of that name, which go from every
    /// hierarchy that has one.
    pub open spec fn aggregates_deleted(self, name: Seq<char>) -> Self {
        DimensionModel {
            hierarchies: each(self.hierarchies, |h: HierarchyModel<N>| h.without_named(name)),
            types: types_left(self.types, self.hierarchies, name),
            ..self
        }
    }

    /// The dimension without the leaf of that name, if there is one, and its id.
    pub open spec fn leaf_left(self, name: Seq<char>) -> (Self, Seq<u32>) {
        match self.leaf(name) {
            Some(id) => (self.leaf_deleted(name, id), seq![id]),
            None => (self, Seq::empty()),
        }
    }

    /// The dimension without a member, leaf and aggregates, and the ids that it
    /// had.
    pub open spec fn member_deleted(self, name: Seq<char>) -> (Self, Result<Seq<u32>, Seq<char>>) {
        let (rest, first) = self.leaf_left(name);
        let ids = first + ids_known(rest.hierarchies, name);
        if ids.len() == 0 {
            (self, Err(no_such_member(name, self.name)))
        } else {
            (rest.aggregates_deleted(name).defaults_fixed(ids), Ok(ids))
        }
    }

    pub open spec fn moved_before(
        self,
        hierarchy: Option<Seq<char>>,
        name: Seq<char>,
        reference: Seq<char>,
    ) -> (Self, Result<(), Seq<char>>) {
        match self.place(self.hierarchy_named(hierarchy)) {
            None => (self, Err("Hierarchy not found in dimension '"@ + self.name + "'."@)),
            Some(p) => {
                let h = self.hierarchies[p].1;
                match (h.id_of(name), h.id_of(reference)) {
                    (None, _) => (self, Err(no_such_member(name, self.name))),
                    (_, None) => (self, Err(no_such_member(reference, self.name))),
                    (Some(id), Some(other)) => if h.siblings(id, other) {
                        (
                            DimensionModel {
                                hierarchies: set_at(self.hierarchies, p, h.moved_before(id, other)),
                                ..self
                            },
                            Ok(()),
                        )
                    } else {
                        (
                            self,
                            Err(
                                "'"@ + name + "' and '"@ + reference
                                    + "' are not siblings in hierarchy '"@ + h.name
                                    + "', so they cannot be reordered relative to each other. (Re-parenting is a separate operation.)"@,
                            ),
                        )
                    },
                }
            },
        }
    }

    pub open spec fn moved_to_front(self, hierarchy: Option<Seq<char>>, name: Seq<char>) -> (
        Self,
        Result<(), Seq<char>>,
    ) {
        match self.place(self.hierarchy_named(hierarchy)) {
            None => (self, Err("Hierarchy not found in dimension '"@ + self.name + "'."@)),
            Some(p) => {
                let h = self.hierarchies[p].1;
                match h.id_of(name) {
                    None => (self, Err(no_such_member(name, self.name))),
                    Some(id) => (
                        DimensionModel {
                            hierarchies: set_at(self.hierarchies, p, h.moved_to_front(id)),
                            ..self
                        },
                        Ok(()),
                    ),
                }
            },
        }
    }

    pub open spec fn default_set(self, name: Seq<char>) -> (Self, Result<(), Seq<char>>) {
        match self.id_of(name) {
            Some(id) => (DimensionModel { default_member_id: Some(id), ..self }, Ok(())),
            None => (
                self,
                Err("Member '"@ + name + "' does not exist in dimension '"@ + self.name + "'"@),
            ),
        }
    }

    /// The number of leaves and aggregates.
    pub open spec fn size(self) -> nat {
        self.leaf_ids.len() + aggregate_count(self.hierarchies, self.leaves())
    }

    /// The leaves below a member with the weights by which they count in it.
    pub open spec fn leaf_weights(self, hierarchy: Option<Seq<char>>, member: Seq<char>) -> Map<
        u32,
        N,
    > {
        match self.resolved(hierarchy) {
            Some(h) => match h.id_of(member) {
                Some(id) => h.leaf_weights(self.leaves(), id),
                None => Map::empty(),
            },
            None => Map::empty(),
        }
    }

    /// There is an end to every way down from the member.
    pub open spec fn is_tree(self, hierarchy: Option<Seq<char>>, member: Seq<char>) -> bool {
        match self.resolved(hierarchy) {
            Some(h) => match h.id_of(member) {
                Some(id) => h.is_tree(id),
                None => true,
            },
            None => true,
        }
    }

    /// The tree below a member, in lines.
    pub open spec fn drawn(self, hierarchy: Option<Seq<char>>, member: Seq<char>, weight: N) -> Seq<
        char,
    > {
        match self.resolved(hierarchy) {
            Some(h) => match h.id_of(member) {
                Some(id) => h.drawn(|id: u32| self.name_of(id), id, weight, 0),
                None => lines(seq!["└─ "@ + member + " (Not Found)"@]),
            },
            None => lines(seq!["└─ "@ + member + " (Hierarchy Not Found)"@]),
        }
    }

    /// The members of a hierarchy in the order in which they are shown.
    pub open spec fn shown_members(self, hierarchy: Option<Seq<char>>) -> Seq<Seq<char>> {
        match self.resolved(hierarchy) {
            Some(h) => {
                let ids = h.ensured().order;
                Seq::new(ids.len(), |i: int| self.ensured_in(hierarchy).name_of(ids[i]))
            },
            None => Seq::empty(),
        }
    }

    /// The dimension with the display order of one hierarchy up to date.
    pub open spec fn ensured_in(self, hierarchy: Option<Seq<char>>) -> Self {
        match self.place(self.hierarchy_named(hierarchy)) {
            Some(p) => DimensionModel {
                hierarchies: set_at(self.hierarchies, p, self.hierarchies[p].1.ensured()),
                ..self
            },
            None => self,
        }
    }

    pub open spec fn ensured(self) -> Self {
        DimensionModel {
            hierarchies: each(self.hierarchies, |h: HierarchyModel<N>| h.ensured()),
            ..self
        }
    }

    pub open spec fn rebuilt(self) -> Self {
        DimensionModel {
            hierarchies: each(self.hierarchies, |h: HierarchyModel<N>| h.rebuilt()),
            ..self
        }
    }

    pub open spec fn rank(self, hierarchy: Option<Seq<char>>, id: u32) -> usize {
        match self.resolved(hierarchy) {
            Some(h) => h.rank(id),
            None => usize::MAX,
        }
    }
}

// ---------------------------------------------------------------------------
// Changes to every hierarchy
// ---------------------------------------------------------------------------

/// The first `n` hierarchies changed in the same way.
spec fn each_up_to<N>(
    was: Seq<(Seq<char>, HierarchyModel<N>)>,
    change: spec_fn(HierarchyModel<N>) -> HierarchyModel<N>,
    n: int,
    now: Seq<(Seq<char>, HierarchyModel<N>)>,
) -> bool {
    &&& now.len() == was.len()
    &&& forall|i: int| 0 <= i < n ==> #[trigger] now[i] == (was[i].0, change(was[i].1))
    &&& forall|i: int| n <= i < was.len() ==> #[trigger] now[i] == was[i]
}

/// Makes a leaf known in every hierarchy.
fn alias_in_each<N: Number>(hierarchies: &mut Vec<(String, Hierarchy<N>)>, name: &str, id: u32)
    ensures
        models(final(hierarchies)@) == each(
            models(old(hierarchies)@),
            |h: HierarchyModel<N>| h.with_leaf(name@, id),
        ),
{
    let ghost change = |h: HierarchyModel<N>| h.with_leaf(name@, id);
    let ghost was = models(hierarchies@);
    let mut i: usize = 0;
    while i < hierarchies.len()
        invariant
            i <= hierarchies@.len(),
            change == |h: HierarchyModel<N>| h.with_leaf(name@, id),
            each_up_to(was, change, i as int, models(hierarchies@)),
        decreases hierarchies@.len() - i,
    {
        let ghost before = models(hierarchies@);
        hierarchies[i].1.register_leaf_alias(name, id);
        assert(models(hierarchies@) =~= set_at(before, i as int, change(before[i as int].1)));
        i += 1;
    }
    assert(models(hierarchies@) =~= each(was, change));
}

/// Makes a leaf unknown in every hierarchy.
fn unalias_in_each<N: Number>(hierarchies: &mut Vec<(String, Hierarchy<N>)>, id: u32)
    ensures
        models(final(hierarchies)@) == each(
            models(old(hierarchies)@),
            |h: HierarchyModel<N>| h.without_alias(id),
        ),
{
    let ghost change = |h: HierarchyModel<N>| h.without_alias(id);
    let ghost was = models(hierarchies@);
    let mut i: usize = 0;
    while i < hierarchies.len()
        invariant
            i <= hierarchies@.len(),
            change == |h: HierarchyModel<N>| h.without_alias(id),
            each_up_to(was, change, i as int, models(hierarchies@)),
        decreases hierarchies@.len() - i,
    {
        let ghost before = models(hierarchies@);
        hierarchies[i].1.forget_alias(id);
        assert(models(hierarchies@) =~= set_at(before, i as int, change(before[i as int].1)));
        i += 1;
    }
    assert(models(hierarchies@) =~= each(was, change));
}

/// Removes a member from every hierarchy.
fn forget_in_each<N: Number>(hierarchies: &mut Vec<(String, Hierarchy<N>)>, id: u32)
    ensures
        models(final(hierarchies)@) == each(
            models(old(hierarchies)@),
            |h: HierarchyModel<N>| h.without_member(id),
        ),
{
    let ghost change = |h: HierarchyModel<N>| h.without_member(id);
    let ghost was = models(hierarchies@);
    let mut i: usize = 0;
    while i < hierarchies.len()
        invariant
            i <= hierarchies@.len(),
            change == |h: HierarchyModel<N>| h.without_member(id),
            each_up_to(was, change, i as int, models(hierarchies@)),
        decreases hierarchies@.len() - i,
    {
        let ghost before = models(hierarchies@);
        hierarchies[i].1.forget(id);
        assert(models(hierarchies@) =~= set_at(before, i as int, change(before[i as int].1)));
        i += 1;
    }
    assert(models(hierarchies@) =~= each(was, change));
}

/// Brings every display order up to date.
fn ensure_each<N: Number>(hierarchies: &mut Vec<(String, Hierarchy<N>)>)
    ensures
        models(final(hierarchies)@) == each(
            models(old(hierarchies)@),
            |h: HierarchyModel<N>| h.ensured(),
        ),
{
    let ghost change = |h: HierarchyModel<N>| h.ensured();
    let ghost was = models(hierarchies@);
    let mut i: usize = 0;
    while i < hierarchies.len()
        invariant
            i <= hierarchies@.len(),
            change == |h: HierarchyModel<N>| h.ensured(),
            each_up_to(was, change, i as int, models(hierarchies@)),
        decreases hierarchies@.len() - i,
    {
        let ghost before = models(hierarchies@);
        hierarchies[i].1.ensure_display_order();
        assert(models(hierarchies@) =~= set_at(before, i as int, change(before[i as int].1)));
        i += 1;
    }
    assert(models(hierarchies@) =~= each(was, change));
}

/// Rebuilds every display order.
fn refresh_each<N: Number>(hierarchies: &mut Vec<(String, Hierarchy<N>)>)
    ensures
        models(final(hierarchies)@) == each(
            models(old(hierarchies)@),
            |h: HierarchyModel<N>| h.rebuilt(),
        ),
{
    let ghost change = |h: HierarchyModel<N>| h.rebuilt();
    let ghost was = models(hierarchies@);
    let mut i: usize = 0;
    while i < hierarchies.len()
        invariant
            i <= hierarchies@.len(),
            change == |h: HierarchyModel<N>| h.rebuilt(),
            each_up_to(was, change, i as int, models(hierarchies@)),
        decreases hierarchies@.len() - i,
    {
        let ghost before = models(hierarchies@);
        hierarchies[i].1.refresh_display_order();
        assert(models(hierarchies@) =~= set_at(before, i as int, change(before[i as int].1)));
        i += 1;
    }
    assert(models(hierarchies@) =~= each(was, change));
}

// ---------------------------------------------------------------------------
// The operations
// ---------------------------------------------------------------------------

impl<N: Number> Dimension<N> {
    pub fn new(name: &str) -> (r: Self)
        ensures
            r@ == DimensionModel::<N>::fresh(name@),
    {
        let mut hierarchies: Vec<(String, Hierarchy<N>)> = Vec::new();
        hierarchies.push((to_lowercase(name), Hierarchy::new(name)));
        Dimension {
            name: name.to_string(),
            leaf_ids: Vec::new(),
            leaf_names: BTreeMap::new(),
            hierarchies,
            default_hierarchy: name.to_string(),
            member_types: BTreeMap::new(),
            next_id: 1,
            default_member_id: None,
        }
    }

    /// The name of the default hierarchy.
    pub fn default_hierarchy_name(&self) -> (r: &str)
        ensures
            r@ == self@.default_hierarchy,
    {
        self.default_hierarchy.as_str()
    }

    /// The place of the hierarchy of that name, in any case.
    fn find_hierarchy(&self, name: &str) -> (r: Option<usize>)
        ensures
            match r {
                Some(i) => self@.place(name@) == Some(i as int) && i < self.hierarchies@.len()
                    && self@.hierarchy(name@) == Some(self.hierarchies@[i as int].1@),
                None => self@.place(name@) is None && self@.hierarchy(name@) is None,
            },
    {
        assert(keys(entries_of(self.hierarchies@)) =~= keys(self@.hierarchies));
        find_key(&self.hierarchies, to_lowercase(name).as_str())
    }

    /// The hierarchy of that name, in any case.
    pub fn hierarchy(&self, name: &str) -> (r: Option<&Hierarchy<N>>)
        ensures
            match r {
                Some(h) => self@.hierarchy(name@) == Some(h@),
                None => self@.hierarchy(name@) is None,
            },
    {
        match self.find_hierarchy(name) {
            Some(i) => Some(&self.hierarchies[i].1),
            None => None,
        }
    }

    /// The hierarchy of that name, to be changed.
    pub fn hierarchy_mut(&mut self, name: &str) -> (r: Option<&mut Hierarchy<N>>)
        ensures
            match r {
                Some(h) => old(self)@.hierarchy(name@) == Some((*h)@) && final(self)@ == (
                DimensionModel {
                    hierarchies: set_at(
                        old(self)@.hierarchies,
                        old(self)@.place(name@)->0,
                        (*final(h))@,
                    ),
                    ..old(self)@
                }),
                None => old(self)@.hierarchy(name@) is None && final(self)@ == old(self)@,
            },
    {
        match self.find_hierarchy(name) {
            Some(i) => Some(&mut self.hierarchies[i].1),
            None => None,
        }
    }

    /// The name of the hierarchy that is meant: the given one, or else the
    /// default.
    fn hierarchy_name(&self, name: Option<&str>) -> (r: String)
        ensures
            r@ == self@.hierarchy_named(optional_word(name)),
    {
        match name {
            Some(n) => n.to_string(),
            None => self.default_hierarchy.clone(),
        }
    }

    /// The hierarchy of that name, or else the default one.
    pub fn resolve_hierarchy(&self, name: Option<&str>) -> (r: Option<&Hierarchy<N>>)
        ensures
            match r {
                Some(h) => self@.resolved(optional_word(name)) == Some(h@),
                None => self@.resolved(optional_word(name)) is None,
            },
    {
        self.hierarchy(self.hierarchy_name(name).as_str())
    }

    /// The hierarchy of that name, or else the default one, to be changed.
    pub fn resolve_hierarchy_mut(&mut self, name: Option<&str>) -> (r: Option<&mut Hierarchy<N>>)
        ensures
            match r {
                Some(h) => old(self)@.resolved(optional_word(name)) == Some((*h)@) && final(
                    self)@ == (DimensionModel {
                    hierarchies: set_at(
                        old(self)@.hierarchies,
                        old(self)@.place(old(self)@.hierarchy_named(optional_word(name)))->0,
                        (*final(h))@,
                    ),
                    ..old(self)@
                }),
                None => old(self)@.resolved(optional_word(name)) is None && final(self)@ == old(
                    self)@,
            },
    {
        let name = self.hierarchy_name(name);
        self.hierarchy_mut(name.as_str())
    }

    /// The names of the hierarchies in alphabetical order.
    pub fn hierarchy_names(&self) -> (r: Vec<String>)
        ensures
            texts(r@) == sorted(
                Seq::new(self@.hierarchies.len(), |i: int| self@.hierarchies[i].1.name),
            ),
    {
        let mut names: Vec<String> = Vec::new();
        let ghost all = Seq::new(self@.hierarchies.len(), |i: int| self@.hierarchies[i].1.name);
        for i in 0..self.hierarchies.len()
            invariant
                all == Seq::new(self@.hierarchies.len(), |i: int| self@.hierarchies[i].1.name),
                texts(names@) == all.take(i as int),
        {
            let ghost before = texts(names@);
            names.push(self.hierarchies[i].1.name.clone());
            assert(texts(names@) =~= before.push(all[i as int]));
            assert(texts(names@) =~= all.take(i as int + 1));
        }
        assert(all.take(self.hierarchies@.len() as int) =~= all);
        sort_texts(&names)
    }

    /// True when the dimension has a hierarchy of that name, in any case.
    pub fn has_hierarchy(&self, name: &str) -> (r: bool)
        ensures
            r == (self@.hierarchy(name@) is Some),
    {
        self.find_hierarchy(name).is_some()
    }

    /// Creates a hierarchy, which knows every leaf from the start. Its name
    /// must not be taken.
    pub fn create_hierarchy(&mut self, name: &str) -> (r: Result<(), String>)
        ensures
            (final(self)@, told(r)) == old(self)@.hierarchy_created(name@),
    {
        if self.has_hierarchy(name) {
            return Err(
                cat5(
                    "Hierarchy '",
                    name,
                    "' already exists in dimension '",
                    self.name.as_str(),
                    "'.",
                ),
            );
        }
        let mut h: Hierarchy<N> = Hierarchy::new(name);
        let ids = sorted_keys(&self.leaf_names);
        let ghost fresh = h@;
        let mut i: usize = 0;
        while i < ids.len()
            invariant
                i <= ids@.len(),
                ids@.to_set() == self.leaf_names@.dom(),
                h@ == with_leaves(fresh, self@.leaf_names, ids@.take(i as int)),
            decreases ids@.len() - i,
        {
            assert(ids@.take(i as int + 1).drop_last() =~= ids@.take(i as int));
            assert(ids@.to_set().contains(ids@[i as int]));
            match self.leaf_names.get(&ids[i]) {
                Some(leaf) => {
                    h.register_leaf_alias(leaf.as_str(), ids[i]);
                },
                None => {},
            }
            i += 1;
        }
        assert(ids@.take(i as int) =~= ids@);
        assert(self@.leaf_names.dom() =~= self.leaf_names@.dom());
        h.refresh_display_order();
        let ghost added = h@;
        let ghost was = self@.hierarchies;
        self.hierarchies.push((to_lowercase(name), h));
        assert(self@.hierarchies =~= was.push((lowercase(name@), added)));
        Ok(())
    }

    /// The name of an id: of a leaf, else of an aggregate of any hierarchy.
    pub fn get_name(&self, id: u32) -> (r: String)
        ensures
            r@ == self@.name_of(id),
    {
        match self.leaf_names.get(&id) {
            Some(name) => {
                return name.clone();
            },
            None => {},
        }
        let ghost all = self@.hierarchies;
        let mut i: usize = 0;
        while i < self.hierarchies.len()
            invariant
                i <= self.hierarchies@.len(),
                all == self@.hierarchies,
                !self@.leaf_names.contains_key(id),
                name_in_any(all.take(i as int), id) is None,
            decreases self.hierarchies@.len() - i,
        {
            assert(all.take(i as int + 1).drop_last() =~= all.take(i as int));
            match self.hierarchies[i].1.member_name(id) {
                Some(name) => {
                    proof {
                        name_in_any_extends(all, i as int + 1, id);
                    }
                    return name.to_string();
                },
                None => {},
            }
            i += 1;
        }
        assert(all.take(i as int) =~= all);
        "Unknown".to_string()
    }

    /// The id of a member: of a leaf, else in the default hierarchy, else in
    /// the other hierarchies in the order of their names.
    pub fn get_id(&self, member: &str) -> (r: Option<u32>)
        ensures
            r == self@.id_of(member@),
    {
        match find_id(&self.leaf_ids, to_lowercase(member).as_str()) {
            Some(id) => {
                return Some(id);
            },
            None => {},
        }
        match self.get_id_in(None, member) {
            Some(id) => {
                return Some(id);
            },
            None => {},
        }
        let ghost all = self@.hierarchies;
        let mut first: Option<usize> = None;
        let mut i: usize = 0;
        while i < self.hierarchies.len()
            invariant
                i <= self.hierarchies@.len(),
                all == self@.hierarchies,
                match first {
                    Some(f) => first_by_name(all.take(i as int), member@) == Some(f as int) && f
                        < i,
                    None => first_by_name(all.take(i as int), member@) is None,
                },
            decreases self.hierarchies@.len() - i,
        {
            assert(all.take(i as int + 1).drop_last() =~= all.take(i as int));
            if self.hierarchies[i].1.contains(member) {
                match first {
                    Some(f) => {
                        if !ordered(self.hierarchies[f].0.as_str(), self.hierarchies[i].0.as_str()) {
                            first = Some(i);
                        }
                    },
                    None => {
                        first = Some(i);
                    },
                }
            }
            i += 1;
        }
        assert(all.take(i as int) =~= all);
        match first {
            Some(f) => self.hierarchies[f].1.get_id(member),
            None => None,
        }
    }

    /// The id of a member in the hierarchy of that name, or else in the default
    /// one.
    pub fn get_id_in(&self, hier: Option<&str>, member: &str) -> (r: Option<u32>)
        ensures
            r == self@.id_in(optional_word(hier), member@),
    {
        match self.resolve_hierarchy(hier) {
            Some(h) => h.get_id(member),
            None => None,
        }
    }

    /// Creates a leaf, which belongs to every hierarchy, or returns the leaf or the
    /// member of the default hierarchy of that name.
    pub fn add_leaf(&mut self, name: &str) -> (r: u32)
        ensures
            (final(self)@, r) == old(self)@.leaf_added(name@),
    {
        let key = to_lowercase(name);
        match find_id(&self.leaf_ids, key.as_str()) {
            Some(id) => {
                return id;
            },
            None => {},
        }
        match self.get_id_in(None, name) {
            Some(id) => {
                return id;
            },
            None => {},
        }
        let id = self.next_id;
        let ghost was = entries_of(self.leaf_ids@);
        self.next_id = self.next_id.wrapping_add(1);
        self.leaf_ids.push((key, id));
        assert(entries_of(self.leaf_ids@) =~= was.push((lowercase(name@), id)));
        self.leaf_names.insert(id, name.to_string());
        self.member_types.insert(id, MemberType::Leaf);
        alias_in_each(&mut self.hierarchies, name, id);
        if self.default_member_id.is_none() {
            self.default_member_id = Some(id);
        }
        id
    }

    /// True when the type of `id` is that of an aggregate.
    fn is_aggregate(&self, id: u32) -> (r: bool)
        ensures
            r == self@.is_aggregate(id),
    {
        match self.member_types.get(&id) {
            Some(t) => *t == MemberType::Consolidated,
            None => false,
        }
    }

    /// Creates an aggregate in a hierarchy, or returns the one of that name, also
    /// one that has lost its children. A leaf of that name is promoted: it
    /// leaves the bank of leaves and becomes an aggregate of this hierarchy
    /// alone, under the id it had.
    pub fn add_consolidated_in(&mut self, hier: Option<&str>, name: &str) -> (r: Result<
        u32,
        String,
    >)
        ensures
            (final(self)@, told(r)) == old(self)@.aggregate_added(optional_word(hier), name@),
    {
        let key = self.hierarchy_name(hier);
        let p = match self.find_hierarchy(key.as_str()) {
            Some(p) => p,
            None => {
                return Err(self.no_hierarchy(key.as_str()));
            },
        };
        let leaf_key = to_lowercase(name);
        let leaf = find_id(&self.leaf_ids, leaf_key.as_str());
        match self.hierarchies[p].1.get_id(name) {
            Some(id) => {
                let is_leaf = match leaf {
                    Some(leaf_id) => leaf_id == id,
                    None => false,
                };
                if self.is_aggregate(id) || !is_leaf {
                    self.member_types.insert(id, MemberType::Consolidated);
                    return Ok(id);
                }
            },
            None => {},
        }
        match leaf {
            Some(id) => {
                let original = match self.leaf_names.remove(&id) {
                    Some(leaf) => leaf,
                    None => name.to_string(),
                };
                assert(self@.leaf_names =~= old(self)@.leaf_names.remove(id));
                remove_key(&mut self.leaf_ids, leaf_key.as_str());
                unalias_in_each(&mut self.hierarchies, id);
                self.member_types.insert(id, MemberType::Consolidated);
                let ghost rest = self@.hierarchies;
                assert(rest.len() == old(self)@.hierarchies.len());
                self.hierarchies[p].1.register_aggregate(original.as_str(), id);
                assert(self@.hierarchies =~= set_at(
                    rest,
                    p as int,
                    rest[p as int].1.with_aggregate(original@, id),
                ));
                return Ok(id);
            },
            None => {},
        }
        Ok(self.make_aggregate(p, name))
    }

    /// Makes a new aggregate of the hierarchy at `p`.
    fn make_aggregate(&mut self, p: usize, name: &str) -> (r: u32)
        requires
            p < old(self).hierarchies@.len(),
        ensures
            final(self)@ == old(self)@.aggregate_made(p as int, name@),
            r == old(self)@.next_id,
    {
        let id = self.next_id;
        self.next_id = self.next_id.wrapping_add(1);
        self.member_types.insert(id, MemberType::Consolidated);
        let ghost was = self@.hierarchies;
        self.hierarchies[p].1.register_aggregate(name, id);
        assert(self@.hierarchies =~= set_at(
            was,
            p as int,
            was[p as int].1.with_aggregate(name@, id),
        ));
        id
    }

    /// True when `member` is an aggregate in the hierarchy of that name, or
    /// else in the default one.
    pub fn is_consolidated_in(&self, hier: Option<&str>, member: &str) -> (r: bool)
        ensures
            r == self@.consolidated_in(optional_word(hier), member@),
    {
        match self.get_id_in(hier, member) {
            Some(id) => self.is_aggregate(id),
            None => false,
        }
    }

    /// True when `member` is an aggregate in the default hierarchy.
    pub fn is_consolidated(&self, member: &str) -> (r: bool)
        ensures
            r == self@.consolidated_in(None, member@),
    {
        self.is_consolidated_in(None, member)
    }

    /// Puts `child` under `parent` in a hierarchy, making both where they are
    /// not there: the parent as an aggregate, the child as a leaf, unless its
    /// name is that of an aggregate of the default hierarchy. Returns the name of
    /// the parent that the child has left.
    pub fn add_component_in(
        &mut self,
        hier: Option<&str>,
        parent: &str,
        child: &str,
        weight: N,
    ) -> (r: Result<Option<String>, String>)
        ensures
            (final(self)@, told_name(r)) == old(self)@.component_added(
                optional_word(hier),
                parent@,
                child@,
                weight,
            ),
    {
        let key = self.hierarchy_name(hier);
        let p = match self.find_hierarchy(key.as_str()) {
            Some(p) => p,
            None => {
                return Err(self.no_hierarchy(key.as_str()));
            },
        };
        let parent_id = match self.add_consolidated_in(Some(key.as_str()), parent) {
            Ok(id) => id,
            Err(e) => {
                return Err(e);
            },
        };
        let ghost with_parent = self@;
        assert(p < self.hierarchies@.len()) by {
            assert(self@.hierarchies.len() == old(self)@.hierarchies.len());
        }
        let child_id = match self.hierarchies[p].1.get_id(child) {
            Some(id) => id,
            None => if find_id(&self.leaf_ids, to_lowercase(child).as_str()).is_none()
                && self.get_id_in(None, child).is_some() {
                self.make_aggregate(p, child)
            } else {
                self.add_leaf(child)
            },
        };
        assert((self@, child_id) == with_parent.child_found(p as int, child@));
        let ghost with_child = self@;
        assert(p < self.hierarchies@.len()) by {
            assert(self@.hierarchies.len() == with_parent.hierarchies.len());
        }
        let former = self.hierarchies[p].1.link(parent_id, child_id, weight);
        assert(self@.hierarchies =~= set_at(
            with_child.hierarchies,
            p as int,
            with_child.hierarchies[p as int].1.linked(parent_id, child_id, weight),
        ));
        let ghost linked = self@;
        match former {
            None => Ok(None),
            Some(id) => {
                let name = self.get_name(id);
                if !self.hierarchies[p].1.has_children(id) {
                    self.member_types.insert(id, MemberType::Leaf);
                }
                Ok(Some(name))
            },
        }
    }

    /// Puts `child` under `parent` in the default hierarchy. Returns the name
    /// of the parent that the child has left.
    pub fn add_component(&mut self, parent: &str, child: &str, weight: N) -> (r: Option<String>)
        ensures
            final(self)@ == old(self)@.component_added(None, parent@, child@, weight).0,
            optional(r) == (match old(self)@.component_added(None, parent@, child@, weight).1 {
                Ok(name) => name,
                Err(_) => None,
            }),
    {
        match self.add_component_in(None, parent, child, weight) {
            Ok(name) => name,
            Err(_) => None,
        }
    }

    /// Creates an aggregate in the default hierarchy, or returns the one of
    /// that name; nought where there is no default hierarchy.
    pub fn add_consolidated(&mut self, name: &str) -> (r: u32)
        ensures
            final(self)@ == old(self)@.aggregate_added(None, name@).0,
            r == (match old(self)@.aggregate_added(None, name@).1 {
                Ok(id) => id,
                Err(_) => 0,
            }),
    {
        match self.add_consolidated_in(None, name) {
            Ok(id) => id,
            Err(_) => 0,
        }
    }

    /// Takes `child` from under `parent` in a hierarchy, to the top level.
    pub fn remove_component_in(&mut self, hier: Option<&str>, parent: &str, child: &str) -> (r:
        Result<(), String>)
        ensures
            (final(self)@, told(r)) == old(self)@.component_removed(
                optional_word(hier),
                parent@,
                child@,
            ),
    {
        let key = self.hierarchy_name(hier);
        let p = match self.find_hierarchy(key.as_str()) {
            Some(p) => p,
            None => {
                return Err(self.no_hierarchy(key.as_str()));
            },
        };
        let parent_id = match self.hierarchies[p].1.get_id(parent) {
            Some(id) => id,
            None => {
                return Err(self.no_member(parent));
            },
        };
        let child_id = match self.hierarchies[p].1.get_id(child) {
            Some(id) => id,
            None => {
                return Err(self.no_member(child));
            },
        };
        if !self.is_aggregate(parent_id) {
            return Err(
                cat5(
                    "Member '",
                    parent,
                    "' is not a parent in dimension '",
                    self.name.as_str(),
                    "'.",
                ),
            );
        }
        let ghost was = self@;
        let dropped = self.hierarchies[p].1.drop_component(parent_id, child_id);
        let ghost h = was.hierarchies[p as int].1;
        match dropped {
            None => {
                assert(self@.hierarchies =~= was.hierarchies);
                Err(cat3("Member '", parent, "' has no children."))
            },
            Some(false) => {
                assert(self@.hierarchies =~= was.hierarchies);
                Err(cat5("'", child, "' is not a child of '", parent, "'."))
            },
            Some(true) => {
                if !self.hierarchies[p].1.has_children(parent_id) {
                    self.member_types.insert(parent_id, MemberType::Leaf);
                }
                self.hierarchies[p].1.detach_child(child_id);
                assert(self@.hierarchies =~= was.component_cut(
                    p as int,
                    parent_id,
                    child_id,
                ).hierarchies);
                Ok(())
            },
        }
    }

    fn no_hierarchy(&self, hierarchy: &str) -> (r: String)
        ensures
            r@ == no_such_hierarchy(hierarchy@, self@.name),
    {
        cat5("Hierarchy '", hierarchy, "' does not exist in dimension '", self.name.as_str(), "'.")
    }

    fn no_member(&self, member: &str) -> (r: String)
        ensures
            r@ == no_such_member(member@, self@.name),
    {
        cat5("Member '", member, "' does not exist in dimension '", self.name.as_str(), "'.")
    }

    /// Takes `child` from under `parent` in the default hierarchy.
    pub fn remove_component(&mut self, parent: &str, child: &str) -> (r: Result<(), String>)
        ensures
            (final(self)@, told(r)) == old(self)@.component_removed(None, parent@, child@),
    {
        self.remove_component_in(None, parent, child)
    }

    /// Deletes a member: a leaf from the bank and from every hierarchy, an
    /// aggregate from every hierarchy that has one of that name. Returns its
    /// id; of several, the one in the hierarchy that was created first.
    pub fn delete_member(&mut self, name: &str) -> (r: Result<u32, String>)
        ensures
            final(self)@ == old(self)@.member_deleted(name@).0,
            match r {
                Ok(id) => old(self)@.member_deleted(name@).1 matches Ok(ids) && ids.len() > 0
                    && ids[0] == id,
                Err(e) => old(self)@.member_deleted(name@).1 == Err::<Seq<u32>, Seq<char>>(e@),
            },
    {
        match self.remove_member(name) {
            Ok(ids) => Ok(ids[0]),
            Err(e) => Err(e),
        }
    }

    /// Deletes a member and returns all its ids, by which its data can be found.
    pub fn remove_member(&mut self, name: &str) -> (r: Result<Vec<u32>, String>)
        ensures
            final(self)@ == old(self)@.member_deleted(name@).0,
            match r {
                Ok(ids) => old(self)@.member_deleted(name@).1 == Ok::<Seq<u32>, Seq<char>>(ids@)
                    && ids@.len() > 0,
                Err(e) => old(self)@.member_deleted(name@).1 == Err::<Seq<u32>, Seq<char>>(e@),
            },
    {
        let key = to_lowercase(name);
        let mut ids: Vec<u32> = Vec::new();
        match find_id(&self.leaf_ids, key.as_str()) {
            Some(id) => {
                remove_key(&mut self.leaf_ids, key.as_str());
                self.leaf_names.remove(&id);
                self.member_types.remove(&id);
                forget_in_each(&mut self.hierarchies, id);
                ids.push(id);
            },
            None => {},
        }
        let ghost rest = self@;
        let ghost first = ids@;
        assert((rest, first) == old(self)@.leaf_left(name@)) by {
            if old(self)@.leaf(name@) is Some {
                assert(first =~= seq![old(self)@.leaf(name@)->0]);
            }
        }
        let ghost all = rest.hierarchies;
        let ghost change = |h: HierarchyModel<N>| h.without_named(name@);
        let mut i: usize = 0;
        proof {
            assert(first + Seq::<u32>::empty() =~= first);
        }
        proof {
            assert(all.take(0) =~= Seq::<(Seq<char>, HierarchyModel<N>)>::empty());
        }
        while i < self.hierarchies.len()
            invariant
                i <= self.hierarchies@.len(),
                all == rest.hierarchies,
                change == |h: HierarchyModel<N>| h.without_named(name@),
                each_up_to(all, change, i as int, self@.hierarchies),
                ids@ == first + ids_known(all.take(i as int), name@),
                self@ == (DimensionModel {
                    hierarchies: self@.hierarchies,
                    types: types_left(rest.types, all.take(i as int), name@),
                    ..rest
                }),
            decreases self.hierarchies@.len() - i,
        {
            assert(all.take(i as int + 1).drop_last() =~= all.take(i as int));
            let ghost before = self@.hierarchies;
            assert(before[i as int] == all[i as int]);
            match self.hierarchies[i].1.get_id(name) {
                Some(id) => {
                    self.member_types.remove(&id);
                    self.hierarchies[i].1.forget(id);
                    assert(self@.hierarchies =~= set_at(
                        before,
                        i as int,
                        all[i as int].1.without_member(id),
                    ));
                    self.recompute_types_in(i);
                    let ghost known = ids_known(all.take(i as int), name@);
                    ids.push(id);
                    assert(ids@ =~= first + known.push(id));
                },
                None => {
                    assert(self@.hierarchies =~= set_at(before, i as int, all[i as int].1));
                },
            }
            i += 1;
        }
        assert(all.take(i as int) =~= all);
        assert(self@.hierarchies =~= each(all, change));
        if ids.len() == 0 {
            proof {
                assert(ids_known(all, name@).len() == 0);
                none_known(all, name@);
                assert(self@.hierarchies =~= all);
                assert(self@ == old(self)@);
            }
            return Err(self.no_member(name));
        }
        let ghost left = self@;
        let mut k: usize = 0;
        proof {
            assert(ids@.take(0) =~= Seq::<u32>::empty());
        }
        while k < ids.len()
            invariant
                k <= ids@.len(),
                self@ == left.defaults_fixed(ids@.take(k as int)),
            decreases ids@.len() - k,
        {
            assert(ids@.take(k as int + 1).drop_last() =~= ids@.take(k as int));
            self.fix_default(ids[k]);
            k += 1;
        }
        assert(ids@.take(k as int) =~= ids@);
        Ok(ids)
    }

    fn fix_default(&mut self, deleted_id: u32)
        ensures
            final(self)@ == old(self)@.default_fixed(deleted_id),
    {
        let was_default = match self.default_member_id {
            Some(id) => id == deleted_id,
            None => false,
        };
        if was_default {
            let ghost all = entries_of(self.leaf_ids@);
            let mut least: Option<u32> = None;
            let mut i: usize = 0;
            while i < self.leaf_ids.len()
                invariant
                    i <= self.leaf_ids@.len(),
                    all == entries_of(self.leaf_ids@),
                    least == least_id(all.take(i as int)),
                    *self == *old(self),
                decreases self.leaf_ids@.len() - i,
            {
                assert(all.take(i as int + 1).drop_last() =~= all.take(i as int));
                let id = self.leaf_ids[i].1;
                match least {
                    Some(l) => {
                        if id < l {
                            least = Some(id);
                        }
                    },
                    None => {
                        least = Some(id);
                    },
                }
                i += 1;
            }
            assert(all.take(i as int) =~= all);
            self.default_member_id = least;
        }
    }

    /// Sets the type of every member of a hierarchy by its children.
    fn recompute_types_in(&mut self, p: usize)
        requires
            p < old(self).hierarchies@.len(),
        ensures
            final(self)@ == (DimensionModel {
                types: retyped(old(self)@.types, old(self)@.hierarchies[p as int].1),
                ..old(self)@
            }),
    {
        let ids = self.hierarchies[p].1.registered_ids();
        let ghost h = self@.hierarchies[p as int].1;
        let ghost was = self@.types;
        let mut i: usize = 0;
        while i < ids.len()
            invariant
                p < self.hierarchies@.len(),
                i <= ids@.len(),
                h == self@.hierarchies[p as int].1,
                ids@ == h.member_ids(),
                self@ == (DimensionModel { types: self@.types, ..old(self)@ }),
                forall|id: u32| #[trigger]
                    self@.types.contains_key(id) == (was.contains_key(id) || ids@.take(
                        i as int,
                    ).contains(id)),
                forall|id: u32|
                    self@.types.contains_key(id) ==> #[trigger] self@.types[id] == (
                    if !ids@.take(i as int).contains(id) {
                        was[id]
                    } else if h.kids(id).len() > 0 {
                        MemberType::Consolidated
                    } else {
                        MemberType::Leaf
                    }),
            decreases ids@.len() - i,
        {
            let id = ids[i];
            let kind = if self.hierarchies[p].1.has_children(id) {
                MemberType::Consolidated
            } else {
                MemberType::Leaf
            };
            self.member_types.insert(id, kind);
            assert forall|other: u32| ids@.take(i as int + 1).contains(other) == (other == id
                || ids@.take(i as int).contains(other)) by {
                let now = ids@.take(i as int + 1);
                let before = ids@.take(i as int);
                assert(now[i as int] == id);
                if before.contains(other) {
                    let k = choose|k: int| 0 <= k < before.len() && before[k] == other;
                    assert(now[k] == other);
                }
                if now.contains(other) && other != id {
                    let k = choose|k: int| 0 <= k < now.len() && now[k] == other;
                    assert(before[k] == other);
                }
            }
            i += 1;
        }
        assert(ids@.take(i as int) =~= ids@);
        assert(self@.types =~= retyped(was, h));
    }

    /// Puts a member in front of a sibling in a hierarchy.
    pub fn move_member_before_in(&mut self, hier: Option<&str>, name: &str, reference: &str) -> (r:
        Result<(), String>)
        ensures
            (final(self)@, told(r)) == old(self)@.moved_before(
                optional_word(hier),
                name@,
                reference@,
            ),
    {
        let key = self.hierarchy_name(hier);
        let p = match self.find_hierarchy(key.as_str()) {
            Some(p) => p,
            None => {
                return Err(
                    cat3("Hierarchy not found in dimension '", self.name.as_str(), "'."),
                );
            },
        };
        let id = match self.hierarchies[p].1.get_id(name) {
            Some(id) => id,
            None => {
                return Err(self.no_member(name));
            },
        };
        let ref_id = match self.hierarchies[p].1.get_id(reference) {
            Some(id) => id,
            None => {
                return Err(self.no_member(reference));
            },
        };
        let siblings = match (
            self.hierarchies[p].1.parent_of(id),
            self.hierarchies[p].1.parent_of(ref_id),
        ) {
            (Some(a), Some(b)) => a == b,
            (None, None) => true,
            _ => false,
        };
        if !siblings {
            return Err(
                cat7(
                    "'",
                    name,
                    "' and '",
                    reference,
                    "' are not siblings in hierarchy '",
                    self.hierarchies[p].1.name.as_str(),
                    "', so they cannot be reordered relative to each other. (Re-parenting is a separate operation.)",
                ),
            );
        }
        let ghost was = self@.hierarchies;
        self.hierarchies[p].1.move_member_before(id, ref_id);
        assert(self@.hierarchies =~= set_at(
            was,
            p as int,
            was[p as int].1.moved_before(id, ref_id),
        ));
        Ok(())
    }

    /// Puts a member first among its siblings in a hierarchy.
    pub fn move_member_to_front_in(&mut self, hier: Option<&str>, name: &str) -> (r: Result<
        (),
        String,
    >)
        ensures
            (final(self)@, told(r)) == old(self)@.moved_to_front(optional_word(hier), name@),
    {
        let key = self.hierarchy_name(hier);
        let p = match self.find_hierarchy(key.as_str()) {
            Some(p) => p,
            None => {
                return Err(
                    cat3("Hierarchy not found in dimension '", self.name.as_str(), "'."),
                );
            },
        };
        let id = match self.hierarchies[p].1.get_id(name) {
            Some(id) => id,
            None => {
                return Err(self.no_member(name));
            },
        };
        let ghost was = self@.hierarchies;
        self.hierarchies[p].1.move_member_to_front(id);
        assert(self@.hierarchies =~= set_at(was, p as int, was[p as int].1.moved_to_front(id)));
        Ok(())
    }

    /// Puts a member in front of a sibling in the default hierarchy.
    pub fn move_member_before(&mut self, name: &str, reference: &str) -> (r: Result<(), String>)
        ensures
            (final(self)@, told(r)) == old(self)@.moved_before(None, name@, reference@),
    {
        self.move_member_before_in(None, name, reference)
    }

    /// Puts a member first among its siblings in the default hierarchy.
    pub fn move_member_to_front(&mut self, name: &str) -> (r: Result<(), String>)
        ensures
            (final(self)@, told(r)) == old(self)@.moved_to_front(None, name@),
    {
        self.move_member_to_front_in(None, name)
    }

    /// Makes a member the one that is taken where none is named.
    pub fn set_default_member(&mut self, name: &str) -> (r: Result<(), String>)
        ensures
            (final(self)@, told(r)) == old(self)@.default_set(name@),
    {
        match self.get_id(name) {
            Some(id) => {
                self.default_member_id = Some(id);
                Ok(())
            },
            None => Err(
                cat5(
                    "Member '",
                    name,
                    "' does not exist in dimension '",
                    self.name.as_str(),
                    "'",
                ),
            ),
        }
    }

    /// The name of the default member.
    pub fn get_default_member_name(&self) -> (r: Option<String>)
        ensures
            optional(r) == (match self@.default_member_id {
                Some(id) => Some(self@.name_of(id)),
                None => None,
            }),
    {
        match self.default_member_id {
            Some(id) => Some(self.get_name(id)),
            None => None,
        }
    }

    /// The number of leaves and aggregates, as far as it can be told.
    pub fn len(&self) -> (r: usize)
        ensures
            r == capped(self@.size()),
    {
        let ghost bank = self.leaf_names@.dom();
        assert(bank =~= self@.leaves());
        let ghost all = self@.hierarchies;
        let mut count: usize = self.leaf_ids.len();
        let mut i: usize = 0;
        while i < self.hierarchies.len()
            invariant
                i <= self.hierarchies@.len(),
                all == self@.hierarchies,
                bank == self.leaf_names@.dom(),
                count == capped(self.leaf_ids@.len() + aggregate_count(all.take(i as int), bank)),
            decreases self.hierarchies@.len() - i,
        {
            assert(all.take(i as int + 1).drop_last() =~= all.take(i as int));
            let ids = self.hierarchies[i].1.registered_ids();
            let ghost before = self.leaf_ids@.len() + aggregate_count(all.take(i as int), bank);
            let mut j: usize = 0;
            while j < ids.len()
                invariant
                    j <= ids@.len(),
                    bank == self.leaf_names@.dom(),
                    count == capped(before + count_outside(ids@.take(j as int), bank)),
                decreases ids@.len() - j,
            {
                assert(ids@.take(j as int + 1).drop_last() =~= ids@.take(j as int));
                if !self.leaf_names.contains_key(&ids[j]) {
                    count = count.saturating_add(1);
                }
                j += 1;
            }
            assert(ids@.take(j as int) =~= ids@);
            i += 1;
        }
        assert(all.take(i as int) =~= all);
        count
    }

    pub fn is_empty(&self) -> (r: bool)
        ensures
            r == (self@.leaf_ids.len() == 0 && forall|i: int|
                0 <= i < self@.hierarchies.len() ==> (#[trigger] self@.hierarchies[i]).1.members.len()
                    == 0),
    {
        if self.leaf_ids.len() > 0 {
            return false;
        }
        let mut i: usize = 0;
        while i < self.hierarchies.len()
            invariant
                i <= self.hierarchies@.len(),
                forall|j: int|
                    0 <= j < i ==> (#[trigger] self@.hierarchies[j]).1.members.len() == 0,
            decreases self.hierarchies@.len() - i,
        {
            if !self.hierarchies[i].1.is_empty() {
                assert(self@.hierarchies[i as int].1.members.len() > 0);
                return false;
            }
            i += 1;
        }
        true
    }

    /// The number of leaves.
    pub fn leaf_count(&self) -> (r: usize)
        ensures
            r == self@.leaf_ids.len(),
    {
        self.leaf_ids.len()
    }

    /// The leaves below a member of a hierarchy, with the weights by which they
    /// count in it. A leaf is below itself.
    pub fn get_leaf_descendants_in(&self, hier: Option<&str>, member: &str) -> (r: BTreeMap<u32, N>)
        ensures
            r@ == self@.leaf_weights(optional_word(hier), member@),
    {
        assert(self.leaf_names@.dom() =~= self@.leaves());
        match self.resolve_hierarchy(hier) {
            Some(h) => match h.get_id(member) {
                Some(id) => h.get_leaf_descendants(id, &self.leaf_names),
                None => BTreeMap::new(),
            },
            None => BTreeMap::new(),
        }
    }

    /// The leaves below a member of the default hierarchy.
    pub fn get_leaf_descendants(&self, member: &str) -> (r: BTreeMap<u32, N>)
        ensures
            r@ == self@.leaf_weights(None, member@),
    {
        self.get_leaf_descendants_in(None, member)
    }

    /// Appends a drawing of the tree below a member of the default hierarchy.
    pub fn print_tree(&self, member: &str, depth: usize, current_weight: N, out: &mut String)
        requires
            self@.is_tree(None, member@),
        ensures
            final(out)@ == old(out)@ + self@.drawn(None, member@, current_weight),
    {
        self.print_tree_in(None, member, depth, current_weight, out);
    }

    /// Appends a drawing of the tree below a member of a hierarchy. The drawing
    /// starts at the margin, whatever the depth that is given.
    pub fn print_tree_in(
        &self,
        hier: Option<&str>,
        member: &str,
        _depth: usize,
        current_weight: N,
        out: &mut String,
    )
        requires
            self@.is_tree(optional_word(hier), member@),
        ensures
            final(out)@ == old(out)@ + self@.drawn(optional_word(hier), member@, current_weight),
    {
        match self.resolve_hierarchy(hier) {
            Some(h) => match h.get_id(member) {
                Some(id) => {
                    h.print_tree(id, self, 0, current_weight, out);
                },
                None => {
                    let line = cat3("└─ ", member, " (Not Found)");
                    push_line(out, line.as_str());
                    proof {
                        lines_of_one(line@);
                        assert(out@ =~= old(out)@ + lines(seq![line@]));
                    }
                },
            },
            None => {
                let line = cat3("└─ ", member, " (Hierarchy Not Found)");
                push_line(out, line.as_str());
                proof {
                    lines_of_one(line@);
                    assert(out@ =~= old(out)@ + lines(seq![line@]));
                }
            },
        }
    }

    /// True when the tree below a member of a hierarchy can be drawn: there is
    /// an end to every way down.
    pub fn is_tree_below(&self, hier: Option<&str>, member: &str) -> (r: bool)
        ensures
            r == self@.is_tree(optional_word(hier), member@),
    {
        match self.resolve_hierarchy(hier) {
            Some(h) => match h.get_id(member) {
                Some(id) => h.is_tree_below(id),
                None => true,
            },
            None => true,
        }
    }

    /// The members of a hierarchy in the order in which they are shown.
    pub fn member_order_names_in(&mut self, hier: Option<&str>) -> (r: Vec<String>)
        ensures
            final(self)@ == old(self)@.ensured_in(optional_word(hier)),
            texts(r@) == old(self)@.shown_members(optional_word(hier)),
    {
        let key = self.hierarchy_name(hier);
        let p = match self.find_hierarchy(key.as_str()) {
            Some(p) => p,
            None => {
                return Vec::new();
            },
        };
        let ghost was = self@;
        self.hierarchies[p].1.ensure_display_order();
        assert(self@.hierarchies =~= set_at(
            was.hierarchies,
            p as int,
            was.hierarchies[p as int].1.ensured(),
        ));
        let ids = self.hierarchies[p].1.display_order();
        let ghost all = Seq::new(ids@.len(), |i: int| self@.name_of(ids@[i]));
        let mut out: Vec<String> = Vec::new();
        for i in 0..ids.len()
            invariant
                all == Seq::new(ids@.len(), |i: int| self@.name_of(ids@[i])),
                texts(out@) == all.take(i as int),
        {
            let ghost before = texts(out@);
            out.push(self.get_name(ids[i]));
            assert(texts(out@) =~= before.push(all[i as int]));
            assert(texts(out@) =~= all.take(i as int + 1));
        }
        assert(all.take(ids@.len() as int) =~= all);
        out
    }

    /// The members of the default hierarchy in the order in which they are
    /// shown.
    pub fn member_order_names(&mut self) -> (r: Vec<String>)
        ensures
            final(self)@ == old(self)@.ensured_in(None),
            texts(r@) == old(self)@.shown_members(None),
    {
        self.member_order_names_in(None)
    }

    /// The place of a member in the display order of a hierarchy.
    pub fn display_order_rank_in(&self, hier: Option<&str>, id: u32) -> (r: usize)
        ensures
            r == self@.rank(optional_word(hier), id),
    {
        match self.resolve_hierarchy(hier) {
            Some(h) => h.display_order_rank(id),
            None => usize::MAX,
        }
    }

    /// The place of a member in the display order of the default hierarchy.
    pub fn display_order_rank(&self, id: u32) -> (r: usize)
        ensures
            r == self@.rank(None, id),
    {
        self.display_order_rank_in(None, id)
    }

    /// Brings the display order of every hierarchy up to date.
    pub fn ensure_display_order(&mut self)
        ensures
            final(self)@ == old(self)@.ensured(),
    {
        ensure_each(&mut self.hierarchies);
    }

    /// Rebuilds the display order of every hierarchy.
    pub fn refresh_display_order(&mut self)
        ensures
            final(self)@ == old(self)@.rebuilt(),
    {
        refresh_each(&mut self.hierarchies);
    }

    /// The type of a member.
    pub fn member_type(&self, id: u32) -> (r: Option<MemberType>)
        ensures
            match r {
                Some(kind) => self@.types.contains_key(id) && self@.types[id] == kind,
                None => !self@.types.contains_key(id),
            },
    {
        match self.member_types.get(&id) {
            Some(kind) => Some(*kind),
            None => None,
        }
    }
}

/// The number, or the largest that fits.
pub open spec fn capped(n: nat) -> usize {
    if n <= usize::MAX {
        n as usize
    } else {
        usize::MAX
    }
}

proof fn name_in_any_extends<N: Number>(
    hierarchies: Seq<(Seq<char>, HierarchyModel<N>)>,
    n: int,
    id: u32,
)
    requires
        0 <= n <= hierarchies.len(),
        name_in_any(hierarchies.take(n), id) is Some,
    ensures
        name_in_any(hierarchies, id) == name_in_any(hierarchies.take(n), id),
    decreases hierarchies.len() - n,
{
    if n < hierarchies.len() {
        assert(hierarchies.take(n + 1).drop_last() =~= hierarchies.take(n));
        name_in_any_extends(hierarchies, n + 1, id);
    } else {
        assert(hierarchies.take(n) =~= hierarchies);
    }
}

/// Where no hierarchy knows a member, none is changed by its leaving.
pub proof fn none_known<N: Number>(
    hierarchies: Seq<(Seq<char>, HierarchyModel<N>)>,
    member: Seq<char>,
)
    ensures
        ids_known(hierarchies, member).len() == 0 <==> (forall|i: int|
            0 <= i < hierarchies.len() ==> (#[trigger] hierarchies[i]).1.id_of(member) is None),
        ids_known(hierarchies, member).len() == 0 ==> forall|types: Map<u32, MemberType>|
            #[trigger] types_left(types, hierarchies, member) == types,
    decreases hierarchies.len(),
{
    if hierarchies.len() > 0 {
        let rest = hierarchies.drop_last();
        none_known(rest, member);
        if ids_known(hierarchies, member).len() == 0 {
            assert forall|i: int| 0 <= i < hierarchies.len() implies (
            #[trigger] hierarchies[i]).1.id_of(member) is None by {
                if i < rest.len() {
                    assert(rest[i].1.id_of(member) is None);
                }
            }
            assert forall|types: Map<u32, MemberType>| #[trigger]
                types_left(types, hierarchies, member) == types by {
                assert(types_left(types, rest, member) == types);
            }
        }
        if forall|i: int|
            0 <= i < hierarchies.len() ==> (#[trigger] hierarchies[i]).1.id_of(member) is None {
            assert(hierarchies[hierarchies.len() - 1].1.id_of(member) is None);
            assert forall|i: int| 0 <= i < rest.len() implies (#[trigger] rest[i]).1.id_of(
                member,
            ) is None by {
                assert(hierarchies[i].1.id_of(member) is None);
            }
        }
    }
}

} // verus!
