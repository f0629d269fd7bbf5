use crate::dimension::dimension::Dimension;
use crate::number::Number;
use crate::storage::id_map::{
    find_place, ids_with, ids_without, place_of_id, push_if_new, remove_from, viewed, viewed_insert,
    viewed_remove,
};
use crate::storage::name_map::{
    entries_of, find_id, find_name, key_of, lookup, put, put_entry, remove_id, without_id,
};
use crate::text::{
    cat2, cat3, cat5, lines, lines_in_turn, lines_of_one, lowercase, optional_word, push_line,
    repeat, repeated, to_lowercase,
};
use std::collections::BTreeMap;
use vstd::prelude::*;

verus! {

broadcast use {
    vstd::std_specs::btree::group_btree_axioms,
    vstd::laws_cmp::group_laws_cmp,
    viewed_insert,
    viewed_remove,
};

/// One named hierarchy within a dimension.
///
/// The leaves belong to the dimension and are shared by all its hierarchies.
/// What stands here is how they are consolidated: which aggregates exist, how
/// they parent their children, and the order in which all of them are shown.
pub struct Hierarchy<N> {
    pub name: String,
    /// Ids by lower-case name: the aggregates of this hierarchy, and the shared
    /// leaves under their own ids.
    pub members: Vec<(String, u32)>,
    /// The names of the aggregates as they were given.
    pub display_names: BTreeMap<u32, String>,
    /// The children of each parent with their weights, in order.
    pub consolidations: BTreeMap<u32, Vec<(u32, N)>>,
    /// The one parent of each child.
    pub child_to_parent: BTreeMap<u32, u32>,
    /// The members without a parent, in order.
    pub root_order: Vec<u32>,
    /// The members depth first, as of the last rebuild.
    pub display_order: Vec<u32>,
    /// True when `display_order` has to be rebuilt.
    pub display_order_dirty: bool,
}

/// What a hierarchy holds.
#[verifier::ext_equal]
pub struct HierarchyModel<N> {
    pub name: Seq<char>,
    pub members: Seq<(Seq<char>, u32)>,
    pub names: Map<u32, Seq<char>>,
    pub children: Map<u32, Seq<(u32, N)>>,
    pub parent: Map<u32, u32>,
    pub roots: Seq<u32>,
    pub order: Seq<u32>,
    pub stale: bool,
}

impl<N: Number> View for Hierarchy<N> {
    type V = HierarchyModel<N>;

    open spec fn view(&self) -> HierarchyModel<N> {
        HierarchyModel {
            name: self.name@,
            members: entries_of(self.members@),
            names: viewed(self.display_names@),
            children: viewed(self.consolidations@),
            parent: self.child_to_parent@,
            roots: self.root_order@,
            order: self.display_order@,
            stale: self.display_order_dirty,
        }
    }
}

// ---------------------------------------------------------------------------
// Lists of children
// ---------------------------------------------------------------------------

/// The ids of the children.
pub open spec fn child_ids<N>(kids: Seq<(u32, N)>) -> Seq<u32> {
    Seq::new(kids.len(), |i: int| kids[i].0)
}

/// The children that are not `id`.
pub open spec fn kids_without<N>(kids: Seq<(u32, N)>, id: u32) -> Seq<(u32, N)>
    decreases kids.len(),
{
    if kids.len() == 0 {
        kids
    } else if kids.last().0 == id {
        kids_without(kids.drop_last(), id)
    } else {
        kids_without(kids.drop_last(), id).push(kids.last())
    }
}

/// The list with the item at `from` moved to `to` (a place in what is left).
pub open spec fn moved<A>(list: Seq<A>, from: int, to: int) -> Seq<A> {
    list.remove(from).insert(to, list[from])
}

/// Where `id` goes so that it comes before `reference`: to its place, or to the
/// end where it is not there.
pub open spec fn place_before(ids: Seq<u32>, reference: u32) -> int {
    match place_of_id(ids, reference) {
        Some(i) => i,
        None => ids.len() as int,
    }
}

fn ids_of_kids<N: Number>(kids: &Vec<(u32, N)>) -> (r: Vec<u32>)
    ensures
        r@ == child_ids(kids@),
{
    let mut out: Vec<u32> = Vec::new();
    for i in 0..kids.len()
        invariant
            out@ == child_ids(kids@).take(i as int),
    {
        out.push(kids[i].0);
        assert(out@ =~= child_ids(kids@).take(i as int + 1));
    }
    assert(child_ids(kids@).take(kids@.len() as int) =~= child_ids(kids@));
    out
}

fn drop_kid<N: Number>(kids: &Vec<(u32, N)>, id: u32) -> (r: Vec<(u32, N)>)
    ensures
        r@ == kids_without(kids@, id),
{
    let mut out: Vec<(u32, N)> = Vec::new();
    let mut i: usize = 0;
    while i < kids.len()
        invariant
            i <= kids@.len(),
            out@ == kids_without(kids@.take(i as int), id),
        decreases kids@.len() - i,
    {
        assert(kids@.take(i as int + 1).drop_last() =~= kids@.take(i as int));
        if kids[i].0 != id {
            out.push(kids[i]);
        }
        i += 1;
    }
    assert(kids@.take(i as int) =~= kids@);
    out
}

// ---------------------------------------------------------------------------
// What the operations do
// ---------------------------------------------------------------------------

impl<N: Number> HierarchyModel<N> {
    /// A hierarchy without members.
    pub open spec fn fresh(name: Seq<char>) -> Self {
        HierarchyModel {
            name,
            members: Seq::empty(),
            names: Map::empty(),
            children: Map::empty(),
            parent: Map::empty(),
            roots: Seq::empty(),
            order: Seq::empty(),
            stale: false,
        }
    }

    /// The id of a member, by its name in any case.
    pub open spec fn id_of(self, member: Seq<char>) -> Option<u32> {
        lookup(self.members, lowercase(member))
    }

    /// The name of an id here: as given for an aggregate, else in lower case.
    pub open spec fn name_of(self, id: u32) -> Option<Seq<char>> {
        if self.names.contains_key(id) {
            Some(self.names[id])
        } else {
            key_of(self.members, id)
        }
    }

    pub open spec fn kids(self, id: u32) -> Seq<(u32, N)> {
        if self.children.contains_key(id) {
            self.children[id]
        } else {
            Seq::empty()
        }
    }

    /// The hierarchy with `id` as an aggregate. It is at the top level unless it
    /// has a parent.
    pub open spec fn with_aggregate(self, name: Seq<char>, id: u32) -> Self {
        HierarchyModel {
            members: put(self.members, lowercase(name), id),
            names: self.names.insert(id, name),
            roots: if self.parent.contains_key(id) {
                self.roots
            } else {
                ids_with(self.roots, id)
            },
            stale: true,
            ..self
        }
    }

    pub open spec fn with_leaf(self, name: Seq<char>, id: u32) -> Self {
        if self.id_of(name) is Some {
            self
        } else {
            HierarchyModel {
                members: self.members.push((lowercase(name), id)),
                roots: ids_with(self.roots, id),
                stale: true,
                ..self
            }
        }
    }

    pub open spec fn without_alias(self, id: u32) -> Self {
        if self.names.contains_key(id) {
            self
        } else {
            HierarchyModel {
                members: without_id(self.members, id),
                roots: ids_without(self.roots, id),
                stale: true,
                ..self
            }
        }
    }

    /// The children after `child` left `parent`; a parent without children is
    /// none.
    pub open spec fn cut(self, parent: u32, child: u32) -> Map<u32, Seq<(u32, N)>> {
        if self.children.contains_key(parent) {
            let left = kids_without(self.children[parent], child);
            if left.len() == 0 {
                self.children.remove(parent)
            } else {
                self.children.insert(parent, left)
            }
        } else {
            self.children
        }
    }

    /// The hierarchy without the member and its place in the tree. Its children
    /// go to the top level.
    pub open spec fn without_member(self, id: u32) -> Self {
        let detached = if self.parent.contains_key(id) {
            HierarchyModel {
                children: self.cut(self.parent[id], id),
                parent: self.parent.remove(id),
                ..self
            }
        } else {
            self
        };
        let orphans = child_ids(detached.kids(id));
        HierarchyModel {
            members: without_id(self.members, id),
            names: self.names.remove(id),
            children: detached.children.remove(id),
            parent: detached.parent.remove_keys(orphans.to_set()),
            roots: all_with(ids_without(self.roots, id), orphans),
            stale: true,
            ..self
        }
    }

    /// The parent that `child` leaves when it goes to `parent`.
    pub open spec fn left_parent(self, parent: u32, child: u32) -> Option<u32> {
        if self.parent.contains_key(child) && self.parent[child] != parent {
            Some(self.parent[child])
        } else {
            None
        }
    }

    /// The hierarchy with `child` under `parent`, by `weight`.
    pub open spec fn linked(self, parent: u32, child: u32, weight: N) -> Self {
        let children = match self.left_parent(parent, child) {
            Some(former) => self.cut(former, child),
            None => self.children,
        };
        let kids = if children.contains_key(parent) {
            children[parent]
        } else {
            Seq::empty()
        };
        let known = self.parent.contains_key(child) && self.parent[child] == parent;
        let new_kids = if known {
            match place_of_id(child_ids(kids), child) {
                Some(i) => kids.update(i, (child, weight)),
                None => kids,
            }
        } else {
            kids.push((child, weight))
        };
        HierarchyModel {
            children: children.insert(parent, new_kids),
            parent: if known {
                self.parent
            } else {
                self.parent.insert(child, parent)
            },
            roots: ids_without(self.roots, child),
            stale: true,
            ..self
        }
    }

    /// Both have the same parent, or neither has one.
    pub open spec fn siblings(self, id: u32, other: u32) -> bool {
        if self.parent.contains_key(id) {
            self.parent.contains_key(other) && self.parent[id] == self.parent[other]
        } else {
            !self.parent.contains_key(other)
        }
    }

    /// The hierarchy with `id` in front of `reference` among its siblings.
    pub open spec fn moved_before(self, id: u32, reference: u32) -> Self {
        if id == reference {
            self
        } else if self.parent.contains_key(id) {
            let parent = self.parent[id];
            if !self.children.contains_key(parent) {
                self
            } else {
                let kids = self.children[parent];
                match place_of_id(child_ids(kids), id) {
                    Some(i) => HierarchyModel {
                        children: self.children.insert(
                            parent,
                            moved(
                                kids,
                                i,
                                place_before(child_ids(kids).remove(i), reference),
                            ),
                        ),
                        stale: true,
                        ..self
                    },
                    None => self,
                }
            }
        } else {
            match place_of_id(self.roots, id) {
                Some(i) => HierarchyModel {
                    roots: moved(self.roots, i, place_before(self.roots.remove(i), reference)),
                    stale: true,
                    ..self
                },
                None => self,
            }
        }
    }

    /// The hierarchy with `id` as the first of its siblings.
    pub open spec fn moved_to_front(self, id: u32) -> Self {
        if self.parent.contains_key(id) {
            let parent = self.parent[id];
            if !self.children.contains_key(parent) {
                self
            } else {
                let kids = self.children[parent];
                match place_of_id(child_ids(kids), id) {
                    Some(i) => HierarchyModel {
                        children: self.children.insert(parent, moved(kids, i, 0)),
                        stale: true,
                        ..self
                    },
                    None => self,
                }
            }
        } else {
            HierarchyModel {
                roots: ids_without(self.roots, id).insert(0, id),
                stale: true,
                ..self
            }
        }
    }

    /// The hierarchy after `child` stopped having a parent.
    pub open spec fn detached(self, child: u32) -> Self {
        HierarchyModel {
            parent: self.parent.remove(child),
            roots: ids_with(self.roots, child),
            stale: true,
            ..self
        }
    }

    /// The members depth first: each of `ids` and what lies below it. No path
    /// is followed further than it can go without coming back.
    pub open spec fn flattened(self, ids: Seq<u32>, depth: nat) -> Seq<u32>
        decreases self.members.len() + 2 - depth, ids.len(),
    {
        if depth > self.members.len() + 1 || ids.len() == 0 {
            Seq::empty()
        } else {
            self.flattened(ids.drop_last(), depth) + seq![ids.last()] + self.flattened(
                child_ids(self.kids(ids.last())),
                depth + 1,
            )
        }
    }

    proof fn flattened_one(self, id: u32, depth: nat)
        ensures
            depth <= self.members.len() + 1 ==> self.flattened(seq![id], depth) == seq![id]
                + self.flattened(child_ids(self.kids(id)), depth + 1),
    {
        let one = seq![id];
        assert(one.drop_last() =~= Seq::<u32>::empty());
        assert(self.flattened(one.drop_last(), depth) =~= Seq::<u32>::empty());
        if depth <= self.members.len() + 1 {
            assert(self.flattened(one, depth) =~= seq![id] + self.flattened(
                child_ids(self.kids(id)),
                depth + 1,
            ));
        }
    }

    pub open spec fn rebuilt(self) -> Self {
        HierarchyModel { order: self.flattened(self.roots, 0), stale: false, ..self }
    }

    pub open spec fn ensured(self) -> Self {
        if self.stale {
            self.rebuilt()
        } else {
            self
        }
    }

    /// The place of a member in the display order; the largest number for one
    /// that is not shown.
    pub open spec fn rank(self, id: u32) -> usize {
        match place_of_id(self.order, id) {
            Some(i) => i as usize,
            None => usize::MAX,
        }
    }

    /// What the nodes, each with the weight it has come by, put into the
    /// leaves: a leaf takes its weight, an aggregate hands it on to its
    /// children times their own.
    pub open spec fn shares(self, leaves: Set<u32>, nodes: Seq<(u32, N)>, depth: nat) -> Seq<
        (u32, N),
    >
        decreases self.members.len() + 2 - depth, nodes.len(),
    {
        if depth > self.members.len() + 1 || nodes.len() == 0 {
            Seq::empty()
        } else {
            let (id, weight) = nodes.last();
            self.shares(leaves, nodes.drop_last(), depth) + if leaves.contains(id) {
                seq![(id, weight)]
            } else {
                self.shares(leaves, scaled(self.kids(id), weight), depth + 1)
            }
        }
    }

    pub proof fn shares_one(self, leaves: Set<u32>, id: u32, weight: N, depth: nat)
        ensures
            depth <= self.members.len() + 1 ==> self.shares(leaves, seq![(id, weight)], depth) == (
            if leaves.contains(id) {
                seq![(id, weight)]
            } else {
                self.shares(leaves, scaled(self.kids(id), weight), depth + 1)
            }),
    {
        let one = seq![(id, weight)];
        assert(one.drop_last() =~= Seq::<(u32, N)>::empty());
        assert(self.shares(leaves, one.drop_last(), depth) =~= Seq::<(u32, N)>::empty());
        assert(one.last() == (id, weight));
        if depth <= self.members.len() + 1 {
            let rest = if leaves.contains(id) {
                seq![(id, weight)]
            } else {
                self.shares(leaves, scaled(self.kids(id), weight), depth + 1)
            };
            assert(self.shares(leaves, one, depth) =~= rest);
        }
    }

    /// The leaves below a member with the weights by which they count.
    pub open spec fn leaf_weights(self, leaves: Set<u32>, id: u32) -> Map<u32, N> {
        tallied(Map::empty(), self.shares(leaves, seq![(id, N::one_spec())], 0))
    }

    /// Whether `child` is among the children of `parent`.
    pub open spec fn drops(self, parent: u32, child: u32) -> Option<bool> {
        if self.children.contains_key(parent) {
            Some(child_ids(self.children[parent]).contains(child))
        } else {
            None
        }
    }

    /// The id of every name.
    pub open spec fn member_ids(self) -> Seq<u32> {
        Seq::new(self.members.len(), |i: int| self.members[i].1)
    }

    /// Every way down from `ids` ends after at most `room` members.
    pub open spec fn settles(self, ids: Seq<u32>, room: nat) -> bool
        decreases room, ids.len(),
    {
        if ids.len() == 0 {
            true
        } else if room == 0 {
            false
        } else {
            self.settles(ids.drop_last(), room) && self.settles(
                child_ids(self.kids(ids.last())),
                (room - 1) as nat,
            )
        }
    }
}

impl<N: Number> HierarchyModel<N> {
    /// More steps than a way down can have that never comes back to where it
    /// has been: each but the last is one from a parent.
    pub open spec fn room(self) -> nat {
        self.children.dom().len() + 1
    }

    /// There is an end to every way down from `id`.
    pub open spec fn is_tree(self, id: u32) -> bool {
        self.settles(seq![id], self.room())
    }

    /// One member in the drawing of a tree.
    pub open spec fn tree_line(
        self,
        names: spec_fn(u32) -> Seq<char>,
        id: u32,
        weight: N,
        depth: nat,
    ) -> Seq<char> {
        repeated("  "@, depth) + "└─ "@ + names(id) + if self.kids(id).len() > 0 {
            " (Parent)"@
        } else {
            " (Leaf)"@
        } + if weight.is_unit_spec() {
            ""@
        } else {
            " [w: "@ + weight.shown_spec() + "]"@
        }
    }

    /// The nodes and what lies below each, in lines.
    pub open spec fn tree_lines(
        self,
        names: spec_fn(u32) -> Seq<char>,
        nodes: Seq<(u32, N)>,
        depth: nat,
        room: nat,
    ) -> Seq<Seq<char>>
        decreases room, nodes.len(),
    {
        if nodes.len() == 0 || room == 0 {
            Seq::empty()
        } else {
            let (id, weight) = nodes.last();
            self.tree_lines(names, nodes.drop_last(), depth, room) + seq![
                self.tree_line(names, id, weight, depth),
            ] + self.tree_lines(names, self.kids(id), depth + 1, (room - 1) as nat)
        }
    }

    /// The tree below `id`, in lines.
    pub open spec fn drawn(
        self,
        names: spec_fn(u32) -> Seq<char>,
        id: u32,
        weight: N,
        depth: nat,
    ) -> Seq<char> {
        lines(self.tree_lines(names, seq![(id, weight)], depth, self.room()))
    }

    proof fn tree_lines_one(
        self,
        names: spec_fn(u32) -> Seq<char>,
        id: u32,
        weight: N,
        depth: nat,
        room: nat,
    )
        requires
            room > 0,
        ensures
            self.tree_lines(names, seq![(id, weight)], depth, room) == seq![
                self.tree_line(names, id, weight, depth),
            ] + self.tree_lines(names, self.kids(id), depth + 1, (room - 1) as nat),
    {
        let one = seq![(id, weight)];
        assert(one.drop_last() =~= Seq::<(u32, N)>::empty());
        assert(self.tree_lines(names, one.drop_last(), depth, room) =~= Seq::<Seq<char>>::empty());
        assert(one.last() == (id, weight));
        assert(self.tree_lines(names, one, depth, room) =~= seq![
            self.tree_line(names, id, weight, depth),
        ] + self.tree_lines(names, self.kids(id), depth + 1, (room - 1) as nat));
    }

    pub proof fn settles_one(self, id: u32, room: nat)
        ensures
            self.settles(seq![id], room) == (room > 0 && self.settles(
                child_ids(self.kids(id)),
                (room - 1) as nat,
            )),
    {
        let one = seq![id];
        assert(one.drop_last() =~= Seq::<u32>::empty());
        assert(self.settles(one.drop_last(), room));
    }

    pub proof fn settles_each(self, ids: Seq<u32>, room: nat, i: int)
        requires
            self.settles(ids, room),
            0 <= i < ids.len(),
        ensures
            self.settles(seq![ids[i]], room),
        decreases ids.len(),
    {
        if i < ids.len() - 1 {
            self.settles_each(ids.drop_last(), room, i);
        } else {
            self.settles_one(ids[i], room);
        }
    }
}

/// The ids with the others at the end, as far as they are new.
pub open spec fn all_with(ids: Seq<u32>, others: Seq<u32>) -> Seq<u32>
    decreases others.len(),
{
    if others.len() == 0 {
        ids
    } else {
        ids_with(all_with(ids, others.drop_last()), others.last())
    }
}

/// The children with their weights times `weight`.
pub open spec fn scaled<N: Number>(kids: Seq<(u32, N)>, weight: N) -> Seq<(u32, N)> {
    Seq::new(kids.len(), |i: int| (kids[i].0, weight.times_spec(kids[i].1)))
}

/// The weights after the shares were added to them one by one.
pub open spec fn tallied<N: Number>(weights: Map<u32, N>, shares: Seq<(u32, N)>) -> Map<u32, N>
    decreases shares.len(),
{
    if shares.len() == 0 {
        weights
    } else {
        let before = tallied(weights, shares.drop_last());
        let (id, share) = shares.last();
        let sum = if before.contains_key(id) {
            before[id]
        } else {
            N::zero_spec()
        };
        before.insert(id, sum.plus_spec(share))
    }
}

proof fn tallied_in_turn<N: Number>(
    weights: Map<u32, N>,
    first: Seq<(u32, N)>,
    second: Seq<(u32, N)>,
)
    ensures
        tallied(weights, first + second) == tallied(tallied(weights, first), second),
    decreases second.len(),
{
    if second.len() == 0 {
        assert(first + second =~= first);
    } else {
        assert((first + second).drop_last() =~= first + second.drop_last());
        tallied_in_turn(weights, first, second.drop_last());
    }
}

// ---------------------------------------------------------------------------
// The operations
// ---------------------------------------------------------------------------

impl<N: Number> Hierarchy<N> {
    pub fn new(name: &str) -> (r: Self)
        ensures
            r@ == HierarchyModel::<N>::fresh(name@),
    {
        Hierarchy {
            name: name.to_string(),
            members: Vec::new(),
            display_names: BTreeMap::new(),
            consolidations: BTreeMap::new(),
            child_to_parent: BTreeMap::new(),
            root_order: Vec::new(),
            display_order: Vec::new(),
            display_order_dirty: false,
        }
    }

    /// The id of a member here, by its name in any case.
    pub fn get_id(&self, member: &str) -> (r: Option<u32>)
        ensures
            r == self@.id_of(member@),
    {
        find_id(&self.members, to_lowercase(member).as_str())
    }

    pub fn contains(&self, member: &str) -> (r: bool)
        ensures
            r == (self@.id_of(member@) is Some),
    {
        self.get_id(member).is_some()
    }

    /// The name under which `id` is known here: as given for an aggregate, in
    /// lower case for a shared leaf.
    pub fn member_name(&self, id: u32) -> (r: Option<&str>)
        ensures
            optional_word(r) == self@.name_of(id),
    {
        match self.display_names.get(&id) {
            Some(name) => Some(name.as_str()),
            None => match find_name(&self.members, id) {
                Some(i) => Some(self.members[i].0.as_str()),
                None => None,
            },
        }
    }

    /// The name of an aggregate of this hierarchy.
    pub fn display_name_of(&self, id: u32) -> (r: Option<&str>)
        ensures
            match r {
                Some(name) => self@.names.contains_key(id) && self@.names[id] == name@,
                None => !self@.names.contains_key(id),
            },
    {
        match self.display_names.get(&id) {
            Some(name) => Some(name.as_str()),
            None => None,
        }
    }

    /// The number of names known here.
    pub fn len(&self) -> (r: usize)
        ensures
            r == self@.members.len(),
    {
        self.members.len()
    }

    pub fn is_empty(&self) -> (r: bool)
        ensures
            r == (self@.members.len() == 0),
    {
        self.members.len() == 0
    }

    /// Makes `id` an aggregate of this hierarchy, at the top level unless it has
    /// a parent.
    pub fn register_aggregate(&mut self, name: &str, id: u32)
        ensures
            final(self)@ == old(self)@.with_aggregate(name@, id),
    {
        put_entry(&mut self.members, to_lowercase(name), id);
        self.display_names.insert(id, name.to_string());
        if self.parent_of(id).is_none() {
            push_if_new(&mut self.root_order, id);
        }
        self.display_order_dirty = true;
    }

    /// Makes a shared leaf known here, at the top level, unless its name is
    /// taken.
    pub fn register_leaf_alias(&mut self, name: &str, leaf_id: u32)
        ensures
            final(self)@ == old(self)@.with_leaf(name@, leaf_id),
    {
        if self.get_id(name).is_none() {
            let ghost was = entries_of(self.members@);
            let key = to_lowercase(name);
            self.members.push((key, leaf_id));
            assert(entries_of(self.members@) =~= was.push((lowercase(name@), leaf_id)));
            push_if_new(&mut self.root_order, leaf_id);
            self.display_order_dirty = true;
        }
    }

    /// Makes a leaf unknown here. An aggregate of this hierarchy stays.
    pub fn forget_alias(&mut self, leaf_id: u32)
        ensures
            final(self)@ == old(self)@.without_alias(leaf_id),
    {
        if self.display_names.contains_key(&leaf_id) {
            return ;
        }
        remove_id(&mut self.members, leaf_id);
        remove_from(&mut self.root_order, leaf_id);
        self.display_order_dirty = true;
    }

    /// Takes `child` out of the children of `parent`.
    fn cut_child(&mut self, parent: u32, child: u32)
        ensures
            final(self)@ == (HierarchyModel {
                children: old(self)@.cut(parent, child),
                ..old(self)@
            }),
    {
        match self.consolidations.remove(&parent) {
            Some(kids) => {
                let left = drop_kid(&kids, child);
                if left.len() > 0 {
                    self.consolidations.insert(parent, left);
                    assert(self@.children =~= old(self)@.cut(parent, child));
                }
            },
            None => {
                assert(self@.children =~= old(self)@.children);
            },
        }
    }

    /// Removes a member and its names. Its children go to the top level.
    pub fn forget(&mut self, id: u32)
        ensures
            final(self)@ == old(self)@.without_member(id),
    {
        remove_id(&mut self.members, id);
        self.display_names.remove(&id);
        let parent = self.parent_of(id);
        match parent {
            Some(parent_id) => {
                self.cut_child(parent_id, id);
                self.child_to_parent.remove(&id);
            },
            None => {},
        }
        let ghost detached = self@;
        let orphans = match self.consolidations.remove(&id) {
            Some(kids) => ids_of_kids(&kids),
            None => Vec::new(),
        };
        assert(orphans@ =~= child_ids(detached.kids(id)));
        assert(self@.children =~= detached.children.remove(id));
        remove_from(&mut self.root_order, id);
        let ghost middle = self@;
        let mut i: usize = 0;
        assert(orphans@.take(0).to_set() =~= Set::<u32>::empty());
        assert(self@.parent =~= middle.parent.remove_keys(orphans@.take(0).to_set()));
        while i < orphans.len()
            invariant
                i <= orphans@.len(),
                self@ == (HierarchyModel {
                    parent: middle.parent.remove_keys(orphans@.take(i as int).to_set()),
                    roots: all_with(middle.roots, orphans@.take(i as int)),
                    ..middle
                }),
            decreases orphans@.len() - i,
        {
            let ghost upto = orphans@.take(i as int);
            let ghost next = orphans@.take(i as int + 1);
            assert(next.drop_last() =~= upto);
            assert(next =~= upto.push(orphans@[i as int]));
            assert forall|id: u32| next.to_set().contains(id) == upto.to_set().insert(
                orphans@[i as int],
            ).contains(id) by {
                if upto.contains(id) {
                    let k = choose|k: int| 0 <= k < upto.len() && upto[k] == id;
                    assert(next[k] == id);
                }
                assert(next[i as int] == orphans@[i as int]);
                if next.contains(id) && id != orphans@[i as int] {
                    let k = choose|k: int| 0 <= k < next.len() && next[k] == id;
                    assert(upto[k] == id);
                }
            }
            assert(next.to_set() =~= upto.to_set().insert(orphans@[i as int]));
            let child = orphans[i];
            self.child_to_parent.remove(&child);
            push_if_new(&mut self.root_order, child);
            assert(self@.parent =~= middle.parent.remove_keys(next.to_set()));
            i += 1;
        }
        assert(orphans@.take(i as int) =~= orphans@);
        self.display_order_dirty = true;
    }

    /// Puts `child` under `parent` by `weight`. A child has one parent: it
    /// leaves the one it had, which is returned.
    pub fn link(&mut self, parent_id: u32, child_id: u32, weight: N) -> (r: Option<u32>)
        ensures
            final(self)@ == old(self)@.linked(parent_id, child_id, weight),
            r == old(self)@.left_parent(parent_id, child_id),
    {
        let ghost was = self@;
        let former = self.parent_of(child_id);
        let (known, left) = match former {
            Some(p) => if p == parent_id {
                (true, None)
            } else {
                (false, Some(p))
            },
            None => (false, None),
        };
        match left {
            Some(p) => {
                self.cut_child(p, child_id);
            },
            None => {},
        }
        let ghost cut = self@;
        let mut kids = match self.consolidations.remove(&parent_id) {
            Some(kids) => kids,
            None => Vec::new(),
        };
        let ghost kids_before = kids@;
        if known {
            let ids = ids_of_kids(&kids);
            match find_place(&ids, child_id) {
                Some(i) => {
                    kids.set(i, (child_id, weight));
                },
                None => {},
            }
        } else {
            kids.push((child_id, weight));
            self.child_to_parent.insert(child_id, parent_id);
        }
        let ghost kids_after = kids@;
        self.consolidations.insert(parent_id, kids);
        assert(self@.children =~= cut.children.insert(parent_id, kids_after));
        remove_from(&mut self.root_order, child_id);
        self.display_order_dirty = true;
        left
    }

    pub fn parent_of(&self, id: u32) -> (r: Option<u32>)
        ensures
            match r {
                Some(parent) => self@.parent.contains_key(id) && self@.parent[id] == parent,
                None => !self@.parent.contains_key(id),
            },
    {
        match self.child_to_parent.get(&id) {
            Some(parent) => Some(*parent),
            None => None,
        }
    }

    /// The children of `id` with their weights, in order.
    pub fn children_of(&self, id: u32) -> (r: &[(u32, N)])
        ensures
            r@ == self@.kids(id),
    {
        match self.consolidations.get(&id) {
            Some(kids) => kids.as_slice(),
            None => &[],
        }
    }

    pub fn has_children(&self, id: u32) -> (r: bool)
        ensures
            r == (self@.kids(id).len() > 0),
    {
        self.children_of(id).len() > 0
    }

    /// Puts `id` in front of `ref_id` among its siblings, or last where the
    /// other is no sibling.
    pub fn move_member_before(&mut self, id: u32, ref_id: u32)
        ensures
            final(self)@ == old(self)@.moved_before(id, ref_id),
    {
        if id == ref_id {
            return ;
        }
        match self.parent_of(id) {
            Some(parent_id) => {
                let mut kids = match self.consolidations.remove(&parent_id) {
                    Some(kids) => kids,
                    None => {
                        assert(self@ =~= old(self)@);
                        return ;
                    },
                };
                let ghost kids_before = kids@;
                let mut ids = ids_of_kids(&kids);
                match find_place(&ids, id) {
                    Some(i) => {
                        let kid = kids.remove(i);
                        ids.remove(i);
                        let to = match find_place(&ids, ref_id) {
                            Some(j) => j,
                            None => ids.len(),
                        };
                        assert(ids@.len() == kids@.len());
                        kids.insert(to, kid);
                        let ghost kids_after = kids@;
                        self.consolidations.insert(parent_id, kids);
                        assert(self@.children =~= old(self)@.children.insert(parent_id, kids_after));
                        self.display_order_dirty = true;
                    },
                    None => {
                        self.consolidations.insert(parent_id, kids);
                        assert(self@ =~= old(self)@);
                    },
                }
            },
            None => match find_place(&self.root_order, id) {
                Some(i) => {
                    let root = self.root_order.remove(i);
                    let to = match find_place(&self.root_order, ref_id) {
                        Some(j) => j,
                        None => self.root_order.len(),
                    };
                    self.root_order.insert(to, root);
                    self.display_order_dirty = true;
                },
                None => {},
            },
        }
    }

    /// Puts `id` first among its siblings.
    pub fn move_member_to_front(&mut self, id: u32)
        ensures
            final(self)@ == old(self)@.moved_to_front(id),
    {
        match self.parent_of(id) {
            Some(parent_id) => {
                let mut kids = match self.consolidations.remove(&parent_id) {
                    Some(kids) => kids,
                    None => {
                        assert(self@ =~= old(self)@);
                        return ;
                    },
                };
                let ids = ids_of_kids(&kids);
                match find_place(&ids, id) {
                    Some(i) => {
                        let kid = kids.remove(i);
                        kids.insert(0, kid);
                        let ghost kids_after = kids@;
                        self.consolidations.insert(parent_id, kids);
                        assert(self@.children =~= old(self)@.children.insert(parent_id, kids_after));
                        self.display_order_dirty = true;
                    },
                    None => {
                        self.consolidations.insert(parent_id, kids);
                        assert(self@ =~= old(self)@);
                    },
                }
            },
            None => {
                remove_from(&mut self.root_order, id);
                self.root_order.insert(0, id);
                self.display_order_dirty = true;
            },
        }
    }

    fn rebuild_display_order(&mut self)
        ensures
            final(self)@ == old(self)@.rebuilt(),
    {
        let mut flat: Vec<u32> = Vec::new();
        let mut i: usize = 0;
        while i < self.root_order.len()
            invariant
                i <= self.root_order@.len(),
                *self == *old(self),
                flat@ == self@.flattened(self@.roots.take(i as int), 0),
            decreases self.root_order@.len() - i,
        {
            assert(self@.roots.take(i as int + 1).drop_last() =~= self@.roots.take(i as int));
            let ghost before = flat@;
            self.flatten_dfs(self.root_order[i], &mut flat, 0);
            proof {
                self@.flattened_one(self@.roots[i as int], 0);
                assert(flat@ =~= before + seq![self@.roots[i as int]] + self@.flattened(
                    child_ids(self@.kids(self@.roots[i as int])),
                    1,
                ));
            }
            i += 1;
        }
        assert(self@.roots.take(i as int) =~= self@.roots);
        self.display_order = flat;
        self.display_order_dirty = false;
    }

    fn flatten_dfs(&self, id: u32, out: &mut Vec<u32>, depth: u128)
        requires
            depth <= self@.members.len() + 2,
        ensures
            final(out)@ == old(out)@ + self@.flattened(seq![id], depth as nat),
        decreases self@.members.len() + 2 - depth,
    {
        let limit = self.members.len() as u128 + 1;
        if depth > limit {
            assert(out@ =~= old(out)@ + self@.flattened(seq![id], depth as nat));
            return ;
        }
        out.push(id);
        let next = depth + 1;
        let kids = self.children_of(id);
        let ghost ids = child_ids(kids@);
        let ghost start = out@;
        let mut i: usize = 0;
        assert(out@ =~= start + self@.flattened(ids.take(0), (depth + 1) as nat));
        while i < kids.len()
            invariant
                i <= kids@.len(),
                kids@ == self@.kids(id),
                ids == child_ids(kids@),
                next == depth + 1,
                depth <= limit,
                limit == self@.members.len() + 1,
                out@ == start + self@.flattened(ids.take(i as int), (depth + 1) as nat),
            decreases kids@.len() - i,
        {
            assert(ids.take(i as int + 1).drop_last() =~= ids.take(i as int));
            let ghost before = out@;
            self.flatten_dfs(kids[i].0, out, next);
            proof {
                self@.flattened_one(ids[i as int], (depth + 1) as nat);
                assert(out@ =~= start + self@.flattened(ids.take(i as int + 1), (depth + 1) as nat));
            }
            i += 1;
        }
        proof {
            assert(ids.take(i as int) =~= ids);
            self@.flattened_one(id, depth as nat);
            assert(out@ =~= old(out)@ + self@.flattened(seq![id], depth as nat));
        }
    }

    /// Rebuilds the display order if it is stale.
    pub fn ensure_display_order(&mut self)
        ensures
            final(self)@ == old(self)@.ensured(),
    {
        if self.display_order_dirty {
            self.rebuild_display_order();
        }
    }

    /// Rebuilds the display order.
    pub fn refresh_display_order(&mut self)
        ensures
            final(self)@ == old(self)@.rebuilt(),
    {
        self.rebuild_display_order();
    }

    /// The place of a member in the display order; the largest number for one
    /// that is not shown.
    pub fn display_order_rank(&self, id: u32) -> (r: usize)
        ensures
            r == self@.rank(id),
    {
        match find_place(&self.display_order, id) {
            Some(i) => i,
            None => usize::MAX,
        }
    }

    pub fn display_order(&self) -> (r: &[u32])
        ensures
            r@ == self@.order,
    {
        self.display_order.as_slice()
    }

    /// The id of every name known here, in the order of the names.
    pub fn registered_ids(&self) -> (r: Vec<u32>)
        ensures
            r@ == self@.member_ids(),
    {
        let mut out: Vec<u32> = Vec::new();
        for i in 0..self.members.len()
            invariant
                out@ == self@.member_ids().take(i as int),
        {
            out.push(self.members[i].1);
            assert(out@ =~= self@.member_ids().take(i as int + 1));
        }
        assert(self@.member_ids().take(self.members@.len() as int) =~= self@.member_ids());
        out
    }

    /// Takes `child` out of the children of `parent`. True if it was among
    /// them; none if the parent has no list of children.
    pub fn drop_component(&mut self, parent_id: u32, child_id: u32) -> (r: Option<bool>)
        ensures
            r == old(self)@.drops(parent_id, child_id),
            final(self)@ == (if r == Some(true) {
                HierarchyModel { children: old(self)@.cut(parent_id, child_id), ..old(self)@ }
            } else {
                old(self)@
            }),
    {
        match self.consolidations.get(&parent_id) {
            Some(kids) => {
                let ids = ids_of_kids(kids);
                if find_place(&ids, child_id).is_some() {
                    self.cut_child(parent_id, child_id);
                    Some(true)
                } else {
                    Some(false)
                }
            },
            None => None,
        }
    }

    /// Ends the child's having a parent and puts it at the top level.
    pub fn detach_child(&mut self, child_id: u32)
        ensures
            final(self)@ == old(self)@.detached(child_id),
    {
        self.child_to_parent.remove(&child_id);
        push_if_new(&mut self.root_order, child_id);
        self.display_order_dirty = true;
    }

    /// Adds the weights of the leaves below `start_id` to `leaves`. The leaves
    /// are the keys of `leaf_bank`.
    pub fn resolve_leaf_descendants(
        &self,
        start_id: u32,
        leaf_bank: &BTreeMap<u32, String>,
        leaves: &mut BTreeMap<u32, N>,
    )
        ensures
            final(leaves)@ == tallied(
                old(leaves)@,
                self@.shares(leaf_bank@.dom(), seq![(start_id, N::one_spec())], 0),
            ),
    {
        self.resolve_recursive(start_id, N::one(), leaf_bank, leaves, 0);
    }

    /// The leaves below `start_id` with the weights by which they count in it.
    pub fn get_leaf_descendants(&self, start_id: u32, leaf_bank: &BTreeMap<u32, String>) -> (r:
        BTreeMap<u32, N>)
        ensures
            r@ == self@.leaf_weights(leaf_bank@.dom(), start_id),
    {
        let mut leaves: BTreeMap<u32, N> = BTreeMap::new();
        self.resolve_leaf_descendants(start_id, leaf_bank, &mut leaves);
        leaves
    }

    fn resolve_recursive(
        &self,
        id: u32,
        weight: N,
        leaf_bank: &BTreeMap<u32, String>,
        leaves: &mut BTreeMap<u32, N>,
        depth: u128,
    )
        requires
            depth <= self@.members.len() + 2,
        ensures
            final(leaves)@ == tallied(
                old(leaves)@,
                self@.shares(leaf_bank@.dom(), seq![(id, weight)], depth as nat),
            ),
        decreases self@.members.len() + 2 - depth,
    {
        let ghost bank = leaf_bank@.dom();
        let limit = self.members.len() as u128 + 1;
        if depth > limit {
            return ;
        }
        proof {
            self@.shares_one(bank, id, weight, depth as nat);
        }
        if leaf_bank.contains_key(&id) {
            let sum = match leaves.get(&id) {
                Some(sum) => *sum,
                None => N::zero(),
            };
            leaves.insert(id, sum.plus(weight));
            proof {
                let one = seq![(id, weight)];
                assert(one.drop_last() =~= Seq::<(u32, N)>::empty());
                assert(one.last() == (id, weight));
                assert(tallied(old(leaves)@, one.drop_last()) == old(leaves)@);
            }
            return ;
        }
        let next = depth + 1;
        let kids = self.children_of(id);
        let ghost nodes = scaled(kids@, weight);
        let mut i: usize = 0;
        assert(tallied(old(leaves)@, self@.shares(bank, nodes.take(0), (depth + 1) as nat)) == old(
            leaves,
        )@);
        while i < kids.len()
            invariant
                i <= kids@.len(),
                kids@ == self@.kids(id),
                nodes == scaled(kids@, weight),
                bank == leaf_bank@.dom(),
                next == depth + 1,
                depth <= limit,
                limit == self@.members.len() + 1,
                leaves@ == tallied(
                    old(leaves)@,
                    self@.shares(bank, nodes.take(i as int), (depth + 1) as nat),
                ),
            decreases kids@.len() - i,
        {
            assert(nodes.take(i as int + 1).drop_last() =~= nodes.take(i as int));
            let (child, share) = kids[i];
            let ghost before = leaves@;
            self.resolve_recursive(child, weight.times(share), leaf_bank, leaves, next);
            proof {
                let part = self@.shares(bank, seq![nodes[i as int]], (depth + 1) as nat);
                self@.shares_one(bank, child, nodes[i as int].1, (depth + 1) as nat);
                tallied_in_turn(
                    old(leaves)@,
                    self@.shares(bank, nodes.take(i as int), (depth + 1) as nat),
                    part,
                );
            }
            i += 1;
        }
        assert(nodes.take(i as int) =~= nodes);
    }

    /// True when `id` has no children here.
    pub fn is_leaf_id(&self, id: u32) -> (r: bool)
        ensures
            r == (self@.kids(id).len() == 0),
    {
        !self.has_children(id)
    }

    /// True when there is an end to every way down from `id`.
    pub fn is_tree_below(&self, id: u32) -> (r: bool)
        ensures
            r == self@.is_tree(id),
    {
        assert(self@.children.dom() =~= self.consolidations@.dom());
        self.settles_within(id, self.consolidations.len() as u128 + 1)
    }

    fn settles_within(&self, id: u32, room: u128) -> (r: bool)
        ensures
            r == self@.settles(seq![id], room as nat),
        decreases room,
    {
        proof {
            self@.settles_one(id, room as nat);
        }
        if room == 0 {
            return false;
        }
        let kids = self.children_of(id);
        let ghost ids = child_ids(kids@);
        let mut i: usize = 0;
        while i < kids.len()
            invariant
                i <= kids@.len(),
                room > 0,
                ids == child_ids(kids@),
                self@.settles(ids.take(i as int), (room - 1) as nat),
                self@.settles(seq![id], room as nat) == self@.settles(ids, (room - 1) as nat),
            decreases kids@.len() - i,
        {
            assert(ids.take(i as int + 1).drop_last() =~= ids.take(i as int));
            if !self.settles_within(kids[i].0, room - 1) {
                proof {
                    if self@.settles(ids, (room - 1) as nat) {
                        self@.settles_each(ids, (room - 1) as nat, i as int);
                    }
                }
                return false;
            }
            proof {
                self@.settles_one(ids[i as int], (room - 1) as nat);
            }
            i += 1;
        }
        assert(ids.take(i as int) =~= ids);
        true
    }

    /// Appends a drawing of the tree below `start_id`, with the names that the
    /// dimension has for the ids. There has to be an end to every way down.
    pub fn print_tree(
        &self,
        start_id: u32,
        dimension: &Dimension<N>,
        depth: usize,
        current_weight: N,
        out: &mut String,
    )
        requires
            self@.is_tree(start_id),
        ensures
            final(out)@ == old(out)@ + self@.drawn(
                |id: u32| dimension@.name_of(id),
                start_id,
                current_weight,
                depth as nat,
            ),
    {
        let prefix = repeat("  ", depth);
        self.draw(
            start_id,
            dimension,
            prefix.as_str(),
            current_weight,
            out,
            Ghost(depth as nat),
            Ghost(self@.room()),
        );
    }

    fn draw(
        &self,
        id: u32,
        dimension: &Dimension<N>,
        prefix: &str,
        weight: N,
        out: &mut String,
        Ghost(depth): Ghost<nat>,
        Ghost(room): Ghost<nat>,
    )
        requires
            self@.settles(seq![id], room),
            prefix@ == repeated("  "@, depth),
        ensures
            final(out)@ == old(out)@ + lines(
                self@.tree_lines(
                    |id: u32| dimension@.name_of(id),
                    seq![(id, weight)],
                    depth,
                    room,
                ),
            ),
        decreases room,
    {
        let ghost names = |id: u32| dimension@.name_of(id);
        let kind = if self.has_children(id) {
            " (Parent)"
        } else {
            " (Leaf)"
        };
        let mark = if weight.is_unit() {
            "".to_string()
        } else {
            cat3(" [w: ", weight.shown().as_str(), "]")
        };
        let line = cat5(prefix, "└─ ", dimension.get_name(id).as_str(), kind, mark.as_str());
        let ghost first = self@.tree_line(names, id, weight, depth);
        assert(line@ =~= first);
        push_line(out, line.as_str());
        let ghost start = out@;
        let kids = self.children_of(id);
        let deeper = cat2(prefix, "  ");
        let ghost left = (room - 1) as nat;
        proof {
            self@.settles_one(id, room);
            self@.tree_lines_one(names, id, weight, depth, room);
        }
        assert(self@.tree_lines(names, kids@.take(0), depth + 1, left) =~= Seq::<
            Seq<char>,
        >::empty());
        assert(start + lines(self@.tree_lines(names, kids@.take(0), depth + 1, left)) =~= start);
        let mut i: usize = 0;
        while i < kids.len()
            invariant
                i <= kids@.len(),
                room > 0,
                left == room - 1,
                names == |id: u32| dimension@.name_of(id),
                kids@ == self@.kids(id),
                self@.settles(child_ids(kids@), left),
                deeper@ == repeated("  "@, depth + 1),
                out@ == start + lines(
                    self@.tree_lines(names, kids@.take(i as int), depth + 1, left),
                ),
            decreases kids@.len() - i,
        {
            proof {
                self@.settles_each(child_ids(kids@), left, i as int);
                self@.settles_one(kids@[i as int].0, left);
                self@.tree_lines_one(
                    names,
                    kids@[i as int].0,
                    kids@[i as int].1,
                    depth + 1,
                    left,
                );
            }
            let ghost done = self@.tree_lines(names, kids@.take(i as int), depth + 1, left);
            let (child, share) = kids[i];
            self.draw(
                child,
                dimension,
                deeper.as_str(),
                share,
                out,
                Ghost(depth + 1),
                Ghost(left),
            );
            proof {
                let more = self@.tree_lines(names, seq![kids@[i as int]], depth + 1, left);
                assert(kids@.take(i as int + 1).drop_last() =~= kids@.take(i as int));
                assert(self@.tree_lines(names, kids@.take(i as int + 1), depth + 1, left) =~= done
                    + more);
                lines_in_turn(done, more);
                assert(out@ =~= start + lines(done + more));
            }
            i += 1;
        }
        proof {
            assert(kids@.take(i as int) =~= kids@);
            let below = self@.tree_lines(names, kids@, depth + 1, left);
            lines_in_turn(seq![first], below);
            lines_of_one(first);
            assert(out@ =~= old(out)@ + lines(seq![first] + below));
        }
    }
}

} // verus!
