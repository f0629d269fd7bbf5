//! What holds of the tree of a hierarchy, whatever is done to it.

use crate::dimension::dimension::{ids_known, with_leaves, DimensionModel};
use crate::dimension::hierarchy::{
    child_ids, kids_without, moved, place_before, scaled, tallied, HierarchyModel,
};
use crate::number::Number;
use crate::storage::id_map::{in_turn, place_of_id, place_of_id_is_first};
use crate::storage::name_map::keys;
use crate::text::{lowercase, place_of_is_first, repeated};
use vstd::prelude::*;

verus! {

/// No child stands in the list twice.
pub open spec fn kids_distinct<N>(kids: Seq<(u32, N)>) -> bool {
    forall|i: int, j: int| 0 <= i < j < kids.len() ==> (#[trigger] kids[i]).0 != (#[trigger] kids[j]).0
}

impl<N: Number> HierarchyModel<N> {
    /// `child` is among the children of `parent`.
    pub open spec fn is_under(self, child: u32, parent: u32) -> bool {
        child_ids(self.kids(parent)).contains(child)
    }

    /// A child has one parent, and stands under it once. What has children, has
    /// at least one.
    pub open spec fn one_parent_each(self) -> bool {
        &&& forall|child: u32, parent: u32|
            #![trigger self.is_under(child, parent)]
            self.is_under(child, parent) == (self.parent.contains_key(child) && self.parent[child]
                == parent)
        &&& forall|parent: u32| #[trigger] self.children.contains_key(parent) ==> kids_distinct(
            self.children[parent],
        ) && self.children[parent].len() > 0
    }
}

pub proof fn kids_without_members<N>(kids: Seq<(u32, N)>, id: u32)
    ensures
        forall|other: u32| #[trigger]
            child_ids(kids_without(kids, id)).contains(other) == (other != id && child_ids(
                kids,
            ).contains(other)),
        kids_distinct(kids) ==> kids_distinct(kids_without(kids, id)),
        !child_ids(kids).contains(id) ==> kids_without(kids, id) == kids,
    decreases kids.len(),
{
    if kids.len() > 0 {
        let rest = kids.drop_last();
        kids_without_members(rest, id);
        let left = kids_without(rest, id);
        let all = kids_without(kids, id);
        assert(child_ids(kids) =~= child_ids(rest).push(kids.last().0));
        if kids.last().0 != id {
            assert(child_ids(all) =~= child_ids(left).push(kids.last().0));
        }
        assert forall|other: u32| #[trigger] child_ids(all).contains(other) == (other != id
            && child_ids(kids).contains(other)) by {
            push_contains(child_ids(rest), kids.last().0, other);
            push_contains(child_ids(left), kids.last().0, other);
            assert(child_ids(left).contains(other) == (other != id && child_ids(rest).contains(
                other,
            )));
        }
        if kids_distinct(kids) {
            assert forall|i: int, j: int| 0 <= i < j < rest.len() implies (#[trigger] rest[i]).0 != (
            #[trigger] rest[j]).0 by {
                assert(kids[i].0 != kids[j].0);
            }
            assert(!child_ids(rest).contains(kids.last().0)) by {
                if child_ids(rest).contains(kids.last().0) {
                    let k = choose|k: int|
                        0 <= k < rest.len() && child_ids(rest)[k] == kids.last().0;
                    assert(kids[k].0 != kids[kids.len() - 1].0);
                }
            }
            assert forall|i: int, j: int| 0 <= i < j < all.len() implies (#[trigger] all[i]).0 != (
            #[trigger] all[j]).0 by {
                if j < left.len() {
                    assert(left[i].0 != left[j].0);
                } else {
                    assert(child_ids(left)[i] == left[i].0);
                    assert(child_ids(left).contains(left[i].0));
                }
            }
        }
        if !child_ids(kids).contains(id) {
            push_contains(child_ids(rest), kids.last().0, id);
            assert(all =~= kids);
        }
    }
}

proof fn push_contains(list: Seq<u32>, last: u32, id: u32)
    ensures
        list.push(last).contains(id) == (id == last || list.contains(id)),
{
    let all = list.push(last);
    if list.contains(id) {
        let k = choose|k: int| 0 <= k < list.len() && list[k] == id;
        assert(all[k] == id);
    }
    assert(all[list.len() as int] == last);
    if all.contains(id) && id != last {
        let k = choose|k: int| 0 <= k < all.len() && all[k] == id;
        assert(list[k] == id);
    }
}

impl<N: Number> HierarchyModel<N> {
    /// The children after one has left its parent.
    proof fn cut_members(self, parent: u32, child: u32)
        requires
            forall|p: u32| #[trigger] self.children.contains_key(p) ==> kids_distinct(
                self.children[p],
            ) && self.children[p].len() > 0,
        ensures
            ({
                let after = HierarchyModel { children: self.cut(parent, child), ..self };
                &&& forall|c: u32, p: u32|
                    #![trigger after.is_under(c, p)]
                    after.is_under(c, p) == (self.is_under(c, p) && !(c == child && p == parent))
                &&& forall|p: u32| #[trigger] after.children.contains_key(p) ==> kids_distinct(
                    after.children[p],
                ) && after.children[p].len() > 0
            }),
    {
        let after = HierarchyModel { children: self.cut(parent, child), ..self };
        if self.children.contains_key(parent) {
            let kids = self.children[parent];
            let left = kids_without(kids, child);
            kids_without_members(kids, child);
            assert forall|c: u32, p: u32|
                #![trigger after.is_under(c, p)]
                after.is_under(c, p) == (self.is_under(c, p) && !(c == child && p == parent)) by {
                if p == parent {
                    assert(child_ids(left).contains(c) == (c != child && child_ids(kids).contains(
                        c,
                    )));
                    assert(after.kids(p) =~= left);
                } else {
                    assert(after.kids(p) == self.kids(p));
                }
            }
        } else {
            assert forall|c: u32, p: u32|
                #![trigger after.is_under(c, p)]
                after.is_under(c, p) == (self.is_under(c, p) && !(c == child && p == parent)) by {
                assert(after.kids(p) == self.kids(p));
            }
        }
    }

    /// Putting a child under a parent keeps to one parent each, and the child
    /// is then under that parent.
    pub proof fn linked_keeps_one_parent(self, parent: u32, child: u32, weight: N)
        requires
            self.one_parent_each(),
        ensures
            self.linked(parent, child, weight).one_parent_each(),
            self.linked(parent, child, weight).is_under(child, parent),
    {
        let after = self.linked(parent, child, weight);
        let former = self.left_parent(parent, child);
        let middle = HierarchyModel {
            children: match former {
                Some(p) => self.cut(p, child),
                None => self.children,
            },
            ..self
        };
        match former {
            Some(p) => {
                self.cut_members(p, child);
            },
            None => {},
        }
        assert forall|c: u32, p: u32|
            #![trigger middle.is_under(c, p)]
            middle.is_under(c, p) == (self.is_under(c, p) && !(former == Some(p) && c == child)) by {
            match former {
                Some(q) => {},
                None => {
                    assert(middle.kids(p) == self.kids(p));
                },
            }
        }
        let kids = middle.kids(parent);
        let known = self.parent.contains_key(child) && self.parent[child] == parent;
        let new_kids = after.children[parent];
        assert(self.is_under(child, parent) == known);
        assert(middle.is_under(child, parent) == known);
        assert(kids_distinct(kids));
        if known {
            place_of_id_is_first(child_ids(kids), child);
            let i = place_of_id(child_ids(kids), child)->0;
            assert(child_ids(kids)[i] == child);
            assert(new_kids == kids.update(i, (child, weight)));
            assert(child_ids(new_kids) =~= child_ids(kids));
            assert forall|a: int, b: int| 0 <= a < b < new_kids.len() implies (
            #[trigger] new_kids[a]).0 != (#[trigger] new_kids[b]).0 by {
                assert(new_kids[a].0 == kids[a].0 && new_kids[b].0 == kids[b].0);
            }
        } else {
            assert(new_kids == kids.push((child, weight)));
            assert(child_ids(new_kids) =~= child_ids(kids).push(child));
            assert forall|a: int, b: int| 0 <= a < b < new_kids.len() implies (
            #[trigger] new_kids[a]).0 != (#[trigger] new_kids[b]).0 by {
                if b < kids.len() {
                    assert(kids[a].0 != kids[b].0);
                } else {
                    assert(child_ids(kids)[a] == kids[a].0);
                    assert(child_ids(kids).contains(kids[a].0));
                }
            }
        }
        assert forall|c: u32, p: u32|
            #![trigger after.is_under(c, p)]
            after.is_under(c, p) == (after.parent.contains_key(c) && after.parent[c] == p) by {
            assert(self.is_under(c, p) == (self.parent.contains_key(c) && self.parent[c] == p));
            assert(middle.is_under(c, p) == (self.is_under(c, p) && !(former == Some(p) && c
                == child)));
            if p == parent {
                assert(after.kids(p) == new_kids);
                push_contains(child_ids(kids), child, c);
            } else {
                assert(after.kids(p) == middle.kids(p));
            }
        }
        assert(after.is_under(child, parent)) by {
            assert(after.parent.contains_key(child) && after.parent[child] == parent);
        }
    }

    /// Removing a member keeps to one parent each, and it has then neither a
    /// parent nor children.
    pub proof fn removal_keeps_one_parent(self, id: u32)
        requires
            self.one_parent_each(),
        ensures
            self.without_member(id).one_parent_each(),
            !self.without_member(id).parent.contains_key(id),
            self.without_member(id).kids(id).len() == 0,
    {
        let after = self.without_member(id);
        let detached = if self.parent.contains_key(id) {
            HierarchyModel {
                children: self.cut(self.parent[id], id),
                parent: self.parent.remove(id),
                ..self
            }
        } else {
            self
        };
        let orphans = child_ids(detached.kids(id));
        if self.parent.contains_key(id) {
            self.cut_members(self.parent[id], id);
            let cut = HierarchyModel { children: self.cut(self.parent[id], id), ..self };
            assert forall|c: u32, p: u32|
                #![trigger detached.is_under(c, p)]
                detached.is_under(c, p) == (detached.parent.contains_key(c) && detached.parent[c]
                    == p) by {
                assert(detached.kids(p) == cut.kids(p));
                assert(cut.is_under(c, p) == (self.is_under(c, p) && !(c == id && p
                    == self.parent[id])));
                assert(self.is_under(c, p) == (self.parent.contains_key(c) && self.parent[c] == p));
            }
        }
        assert(detached.one_parent_each()) by {
            assert forall|p: u32| #[trigger] detached.children.contains_key(p) implies kids_distinct(
                detached.children[p],
            ) && detached.children[p].len() > 0 by {
                if self.parent.contains_key(id) {
                    let cut = HierarchyModel { children: self.cut(self.parent[id], id), ..self };
                    assert(cut.children.contains_key(p));
                }
            }
        }
        assert forall|c: u32, p: u32|
            #![trigger after.is_under(c, p)]
            after.is_under(c, p) == (after.parent.contains_key(c) && after.parent[c] == p) by {
            assert(detached.is_under(c, p) == (detached.parent.contains_key(c)
                && detached.parent[c] == p));
            assert(detached.is_under(c, id) == orphans.contains(c));
            assert(orphans.to_set().contains(c) == orphans.contains(c));
            if p != id {
                assert(after.kids(p) == detached.kids(p));
            }
        }
        assert forall|p: u32| #[trigger] after.children.contains_key(p) implies kids_distinct(
            after.children[p],
        ) && after.children[p].len() > 0 by {
            assert(detached.children.contains_key(p));
        }
    }

    /// Taking a child from under its parent keeps to one parent each, and it
    /// then has none.
    pub proof fn detaching_keeps_one_parent(self, parent: u32, child: u32)
        requires
            self.one_parent_each(),
            self.is_under(child, parent),
        ensures
            ({
                let cut = HierarchyModel { children: self.cut(parent, child), ..self };
                &&& cut.detached(child).one_parent_each()
                &&& !cut.detached(child).parent.contains_key(child)
            }),
    {
        let cut = HierarchyModel { children: self.cut(parent, child), ..self };
        let after = cut.detached(child);
        self.cut_members(parent, child);
        assert forall|c: u32, p: u32|
            #![trigger after.is_under(c, p)]
            after.is_under(c, p) == (after.parent.contains_key(c) && after.parent[c] == p) by {
            assert(after.kids(p) == cut.kids(p));
            assert(cut.is_under(c, p) == (self.is_under(c, p) && !(c == child && p == parent)));
            assert(self.is_under(c, p) == (self.parent.contains_key(c) && self.parent[c] == p));
            assert(self.is_under(child, parent) == (self.parent.contains_key(child)
                && self.parent[child] == parent));
        }
    }

    /// Taking a child away again leaves the tree as it was before the child was
    /// put there.
    pub proof fn detaching_undoes_linking(self, parent: u32, child: u32, weight: N)
        requires
            self.one_parent_each(),
            !self.parent.contains_key(child),
        ensures
            ({
                let linked = self.linked(parent, child, weight);
                let cut = HierarchyModel { children: linked.cut(parent, child), ..linked };
                &&& cut.detached(child).children == self.children
                &&& cut.detached(child).parent == self.parent
            }),
    {
        let linked = self.linked(parent, child, weight);
        let kids = self.kids(parent);
        assert(!self.is_under(child, parent));
        kids_without_members(kids, child);
        let now = linked.children[parent];
        assert(now == kids.push((child, weight)));
        assert(now.drop_last() =~= kids);
        assert(kids_without(now, child) == kids);
        let cut = HierarchyModel { children: linked.cut(parent, child), ..linked };
        if self.children.contains_key(parent) {
            assert(kids.len() > 0);
            assert(cut.children =~= self.children);
        } else {
            assert(cut.children =~= self.children);
        }
        assert(cut.detached(child).parent =~= self.parent);
    }

    /// Moving a member among its siblings keeps to one parent each, and moves
    /// no member to another parent.
    pub proof fn moving_keeps_one_parent(self, id: u32, reference: u32)
        requires
            self.one_parent_each(),
        ensures
            self.moved_before(id, reference).one_parent_each(),
            self.moved_before(id, reference).parent == self.parent,
            self.moved_to_front(id).one_parent_each(),
            self.moved_to_front(id).parent == self.parent,
    {
        if self.parent.contains_key(id) {
            let parent = self.parent[id];
            assert(self.is_under(id, parent));
            assert(self.children.contains_key(parent)) by {
                if !self.children.contains_key(parent) {
                    assert(child_ids(self.kids(parent)).len() == 0);
                }
            }
            let kids = self.children[parent];
            place_of_id_is_first(child_ids(kids), id);
            let i = place_of_id(child_ids(kids), id)->0;
            let rest = child_ids(kids).remove(i);
            place_of_id_is_first(rest, reference);
            let to = place_before(rest, reference);
            self.reordered_keeps_one_parent(parent, moved(kids, i, to), i, to, true);
            self.reordered_keeps_one_parent(parent, moved(kids, i, 0), i, 0, true);
            assert(self.moved_to_front(id).children == self.children.insert(
                parent,
                moved(kids, i, 0),
            ));
            let front = self.moved_to_front(id);
            let other = HierarchyModel {
                children: self.children.insert(parent, moved(kids, i, 0)),
                stale: true,
                ..self
            };
            assert(front == other);
        }
        if !self.parent.contains_key(id) || id == reference {
            self.same_tree(self.moved_before(id, reference));
        }
        if !self.parent.contains_key(id) {
            self.same_tree(self.moved_to_front(id));
        }
    }

    /// What has the same tree has one parent each as well.
    proof fn same_tree(self, other: Self)
        requires
            self.one_parent_each(),
            other.children == self.children,
            other.parent == self.parent,
        ensures
            other.one_parent_each(),
    {
        assert forall|c: u32, p: u32|
            #![trigger other.is_under(c, p)]
            other.is_under(c, p) == (other.parent.contains_key(c) && other.parent[c] == p) by {
            assert(other.kids(p) == self.kids(p));
            assert(self.is_under(c, p) == (self.parent.contains_key(c) && self.parent[c] == p));
        }
    }

    proof fn reordered_keeps_one_parent(
        self,
        parent: u32,
        kids: Seq<(u32, N)>,
        from: int,
        to: int,
        stale: bool,
    )
        requires
            self.one_parent_each(),
            self.children.contains_key(parent),
            0 <= from < self.children[parent].len(),
            0 <= to < self.children[parent].len(),
            kids == moved(self.children[parent], from, to),
        ensures
            (HierarchyModel {
                children: self.children.insert(parent, kids),
                stale,
                ..self
            }).one_parent_each(),
    {
        let before = self.children[parent];
        let after = HierarchyModel { children: self.children.insert(parent, kids), stale, ..self };
        // Where the item at each place comes from.
        let source = |k: int|
            if k == to {
                from
            } else {
                let r = if k < to {
                    k
                } else {
                    k - 1
                };
                if r < from {
                    r
                } else {
                    r + 1
                }
            };
        assert forall|k: int| 0 <= k < kids.len() implies #[trigger] kids[k] == before[source(k)]
            && 0 <= source(k) < before.len() by {}
        assert(kids_distinct(before));
        assert forall|a: int, b: int| 0 <= a < b < kids.len() implies (#[trigger] kids[a]).0 != (
        #[trigger] kids[b]).0 by {
            assert(source(a) != source(b));
            let x = source(a);
            let y = source(b);
            assert(kids[a] == before[x] && kids[b] == before[y]);
            if x < y {
                assert(before[x].0 != before[y].0);
            } else {
                assert(before[y].0 != before[x].0);
            }
        }
        assert forall|c: u32| child_ids(kids).contains(c) == child_ids(before).contains(c) by {
            if child_ids(kids).contains(c) {
                let k = choose|k: int| 0 <= k < kids.len() && child_ids(kids)[k] == c;
                assert(kids[k] == before[source(k)]);
                assert(child_ids(before)[source(k)] == c);
            }
            if child_ids(before).contains(c) {
                let j = choose|j: int| 0 <= j < before.len() && child_ids(before)[j] == c;
                let r = if j < from {
                    j
                } else {
                    j - 1
                };
                let k = if j == from {
                    to
                } else if r < to {
                    r
                } else {
                    r + 1
                };
                assert(kids[k] == before[source(k)]);
                assert(source(k) == j);
                assert(child_ids(kids)[k] == c);
            }
        }
        assert forall|c: u32, p: u32|
            #![trigger after.is_under(c, p)]
            after.is_under(c, p) == (after.parent.contains_key(c) && after.parent[c] == p) by {
            assert(self.is_under(c, p) == (self.parent.contains_key(c) && self.parent[c] == p));
            if p == parent {
                assert(after.kids(p) == kids);
                assert(self.kids(p) == before);
            } else {
                assert(after.kids(p) == self.kids(p));
            }
        }
    }

    /// A leaf is below itself and nothing else is, by a weight of one added to
    /// nought.
    pub proof fn leaf_is_below_itself(self, leaves: Set<u32>, id: u32)
        requires
            leaves.contains(id),
        ensures
            self.leaf_weights(leaves, id) == Map::<u32, N>::empty().insert(
                id,
                N::zero_spec().plus_spec(N::one_spec()),
            ),
    {
        let one = seq![(id, N::one_spec())];
        assert(one.drop_last() =~= Seq::<(u32, N)>::empty());
        assert(self.shares(leaves, one.drop_last(), 0) =~= Seq::<(u32, N)>::empty());
        assert(self.shares(leaves, one, 0) =~= one);
        assert(tallied(Map::<u32, N>::empty(), one.drop_last()) == Map::<u32, N>::empty());
        assert(one.last() == (id, N::one_spec()));
    }

    /// Nothing but leaves is below a member.
    pub proof fn only_leaves_are_below(self, leaves: Set<u32>, id: u32)
        ensures
            self.leaf_weights(leaves, id).dom().subset_of(leaves),
    {
        let nodes = seq![(id, N::one_spec())];
        self.shares_go_to_leaves(leaves, nodes, 0);
        tallied_over(Map::<u32, N>::empty(), self.shares(leaves, nodes, 0), leaves);
    }

    proof fn shares_go_to_leaves(self, leaves: Set<u32>, nodes: Seq<(u32, N)>, depth: nat)
        ensures
            forall|i: int|
                0 <= i < self.shares(leaves, nodes, depth).len() ==> leaves.contains(
                    (#[trigger] self.shares(leaves, nodes, depth)[i]).0,
                ),
        decreases self.members.len() + 2 - depth, nodes.len(),
    {
        if !(depth > self.members.len() + 1 || nodes.len() == 0) {
            let (id, weight) = nodes.last();
            let first = self.shares(leaves, nodes.drop_last(), depth);
            self.shares_go_to_leaves(leaves, nodes.drop_last(), depth);
            self.shares_go_to_leaves(leaves, scaled(self.kids(id), weight), depth + 1);
            let all = self.shares(leaves, nodes, depth);
            assert forall|i: int| 0 <= i < all.len() implies leaves.contains((#[trigger] all[i]).0) by {
                if i < first.len() {
                    assert(all[i] == first[i]);
                } else if !leaves.contains(id) {
                    let more = self.shares(leaves, scaled(self.kids(id), weight), depth + 1);
                    assert(all[i] == more[i - first.len()]);
                }
            }
        }
    }
}

proof fn tallied_over<N: Number>(weights: Map<u32, N>, shares: Seq<(u32, N)>, leaves: Set<u32>)
    requires
        weights.dom().subset_of(leaves),
        forall|i: int| 0 <= i < shares.len() ==> leaves.contains((#[trigger] shares[i]).0),
    ensures
        tallied(weights, shares).dom().subset_of(leaves),
    decreases shares.len(),
{
    if shares.len() > 0 {
        let rest = shares.drop_last();
        assert forall|i: int| 0 <= i < rest.len() implies leaves.contains((#[trigger] rest[i]).0) by {
            assert(shares[i] == rest[i]);
        }
        tallied_over(weights, rest, leaves);
        assert(leaves.contains(shares[shares.len() - 1].0));
    }
}

// ---------------------------------------------------------------------------
// Every hierarchy of a dimension
// ---------------------------------------------------------------------------

impl<N: Number> DimensionModel<N> {
    /// In every hierarchy a child has one parent.
    pub open spec fn one_parent_each(self) -> bool {
        forall|p: int|
            0 <= p < self.hierarchies.len() ==> (#[trigger] self.hierarchies[p]).1.one_parent_each()
    }

    /// A new dimension, and one with a member or a hierarchy more, keep to one
    /// parent each.
    pub proof fn adding_keeps_one_parent(self, hierarchy: Option<Seq<char>>, name: Seq<char>)
        requires
            self.one_parent_each(),
        ensures
            Self::fresh(name).one_parent_each(),
            self.leaf_added(name).0.one_parent_each(),
            self.aggregate_added(hierarchy, name).0.one_parent_each(),
            forall|p: int|
                0 <= p < self.hierarchies.len() ==> (#[trigger] self.aggregate_made(
                    p,
                    name,
                )).one_parent_each(),
            self.hierarchy_created(name).0.one_parent_each(),
    {
        assert(HierarchyModel::<N>::fresh(name).one_parent_each());
        let leaf = self.leaf_added(name).0;
        assert forall|p: int| 0 <= p < leaf.hierarchies.len() implies (
        #[trigger] leaf.hierarchies[p]).1.one_parent_each() by {
            assert(self.hierarchies[p].1.one_parent_each());
            self.hierarchies[p].1.same_tree(leaf.hierarchies[p].1);
        }
        let aggregate = self.aggregate_added(hierarchy, name).0;
        place_of_is_first(keys(self.hierarchies), lowercase(self.hierarchy_named(hierarchy)));
        assert forall|p: int| 0 <= p < aggregate.hierarchies.len() implies (
        #[trigger] aggregate.hierarchies[p]).1.one_parent_each() by {
            assert(self.hierarchies[p].1.one_parent_each());
            self.hierarchies[p].1.same_tree(aggregate.hierarchies[p].1);
        }
        assert forall|q: int| 0 <= q < self.hierarchies.len() implies (
        #[trigger] self.aggregate_made(q, name)).one_parent_each() by {
            let made = self.aggregate_made(q, name);
            assert forall|p: int| 0 <= p < made.hierarchies.len() implies (
            #[trigger] made.hierarchies[p]).1.one_parent_each() by {
                assert(self.hierarchies[p].1.one_parent_each());
                self.hierarchies[p].1.same_tree(made.hierarchies[p].1);
            }
        }
        let created = self.hierarchy_created(name).0;
        with_leaves_same_tree(
            HierarchyModel::<N>::fresh(name),
            self.leaf_names,
            in_turn(self.leaves()),
        );
        assert forall|p: int| 0 <= p < created.hierarchies.len() implies (
        #[trigger] created.hierarchies[p]).1.one_parent_each() by {
            if p < self.hierarchies.len() {
                assert(self.hierarchies[p].1.one_parent_each());
            } else {
                HierarchyModel::<N>::fresh(name).same_tree(created.hierarchies[p].1);
            }
        }
    }

    /// Putting a child under a parent keeps to one parent each. Where it
    /// succeeds the child is under that parent.
    pub proof fn linking_keeps_one_parent(
        self,
        hierarchy: Option<Seq<char>>,
        parent: Seq<char>,
        child: Seq<char>,
        weight: N,
    )
        requires
            self.one_parent_each(),
        ensures
            self.component_added(hierarchy, parent, child, weight).0.one_parent_each(),
            self.component_added(hierarchy, parent, child, weight).1 is Ok ==> {
                let named = self.hierarchy_named(hierarchy);
                let p = self.place(named)->0;
                let (with_parent, parent_id) = self.aggregate_added(Some(named), parent);
                let child_id = with_parent.child_found(p, child).1;
                self.component_added(
                    hierarchy,
                    parent,
                    child,
                    weight,
                ).0.hierarchies[p].1.is_under(child_id, parent_id->Ok_0)
            },
    {
        let named = self.hierarchy_named(hierarchy);
        place_of_is_first(keys(self.hierarchies), lowercase(named));
        match self.place(named) {
            None => {},
            Some(p) => {
                self.adding_keeps_one_parent(Some(named), parent);
                match self.aggregate_added(Some(named), parent) {
                    (with_parent, Err(_)) => {},
                    (with_parent, Ok(parent_id)) => {
                        with_parent.adding_keeps_one_parent(None, child);
                        assert(with_parent.aggregate_made(p, child).one_parent_each());
                        let (with_child, child_id) = with_parent.child_found(p, child);
                        let before = with_child.hierarchies[p].1;
                        assert(with_child.hierarchies[p].1.one_parent_each());
                        before.linked_keeps_one_parent(parent_id, child_id, weight);
                        let after = with_child.component_linked(p, parent_id, child_id, weight).0;
                        with_child.one_tree_changed(p, after);
                    },
                }
            },
        }
    }

    /// One hierarchy changed, and still with one parent each.
    proof fn one_tree_changed(self, p: int, after: Self)
        requires
            self.one_parent_each(),
            0 <= p < self.hierarchies.len(),
            after.hierarchies.len() == self.hierarchies.len(),
            after.hierarchies[p].1.one_parent_each(),
            forall|q: int|
                0 <= q < self.hierarchies.len() && q != p ==> #[trigger] after.hierarchies[q]
                    == self.hierarchies[q],
        ensures
            after.one_parent_each(),
    {
        assert forall|q: int| 0 <= q < after.hierarchies.len() implies (
        #[trigger] after.hierarchies[q]).1.one_parent_each() by {
            if q != p {
                assert(self.hierarchies[q].1.one_parent_each());
            }
        }
    }

    /// Taking a child from under its parent keeps to one parent each.
    pub proof fn unlinking_keeps_one_parent(
        self,
        hierarchy: Option<Seq<char>>,
        parent: Seq<char>,
        child: Seq<char>,
    )
        requires
            self.one_parent_each(),
        ensures
            self.component_removed(hierarchy, parent, child).0.one_parent_each(),
    {
        let named = self.hierarchy_named(hierarchy);
        place_of_is_first(keys(self.hierarchies), lowercase(named));
        if self.component_removed(hierarchy, parent, child).1 is Ok {
            let p = self.place(named)->0;
            let h = self.hierarchies[p].1;
            assert(self.hierarchies[p].1.one_parent_each());
            let parent_id = h.id_of(parent)->0;
            let child_id = h.id_of(child)->0;
            assert(h.is_under(child_id, parent_id));
            h.detaching_keeps_one_parent(parent_id, child_id);
            self.one_tree_changed(p, self.component_removed(hierarchy, parent, child).0);
        }
    }

    /// Putting a member elsewhere among its siblings keeps to one parent each.
    pub proof fn reordering_keeps_one_parent(
        self,
        hierarchy: Option<Seq<char>>,
        name: Seq<char>,
        reference: Seq<char>,
    )
        requires
            self.one_parent_each(),
        ensures
            self.moved_before(hierarchy, name, reference).0.one_parent_each(),
            self.moved_to_front(hierarchy, name).0.one_parent_each(),
    {
        let named = self.hierarchy_named(hierarchy);
        place_of_is_first(keys(self.hierarchies), lowercase(named));
        match self.place(named) {
            None => {},
            Some(p) => {
                let h = self.hierarchies[p].1;
                assert(self.hierarchies[p].1.one_parent_each());
                match h.id_of(name) {
                    None => {},
                    Some(id) => {
                        h.moving_keeps_one_parent(id, id);
                        self.one_tree_changed(p, self.moved_to_front(hierarchy, name).0);
                        match h.id_of(reference) {
                            None => {},
                            Some(other) => {
                                h.moving_keeps_one_parent(id, other);
                                if h.siblings(id, other) {
                                    self.one_tree_changed(
                                        p,
                                        self.moved_before(hierarchy, name, reference).0,
                                    );
                                }
                            },
                        }
                    },
                }
            },
        }
    }

    /// Deleting a member keeps to one parent each.
    pub proof fn deleting_keeps_one_parent(self, name: Seq<char>)
        requires
            self.one_parent_each(),
        ensures
            self.member_deleted(name).0.one_parent_each(),
    {
        let (rest, first) = self.leaf_left(name);
        let ids = first + ids_known(rest.hierarchies, name);
        match self.leaf(name) {
            Some(id) => {
                assert forall|p: int| 0 <= p < rest.hierarchies.len() implies (
                #[trigger] rest.hierarchies[p]).1.one_parent_each() by {
                    assert(self.hierarchies[p].1.one_parent_each());
                    self.hierarchies[p].1.removal_keeps_one_parent(id);
                }
            },
            None => {},
        }
        let left = rest.aggregates_deleted(name);
        assert forall|p: int| 0 <= p < left.hierarchies.len() implies (
        #[trigger] left.hierarchies[p]).1.one_parent_each() by {
            assert(rest.hierarchies[p].1.one_parent_each());
            match rest.hierarchies[p].1.id_of(name) {
                Some(id) => {
                    rest.hierarchies[p].1.removal_keeps_one_parent(id);
                },
                None => {},
            }
        }
        left.defaults_spare_the_rest(ids);
    }
}

/// Leaves that become known change no tree.
pub proof fn with_leaves_same_tree<N: Number>(
    hierarchy: HierarchyModel<N>,
    leaf_names: Map<u32, Seq<char>>,
    ids: Seq<u32>,
)
    ensures
        with_leaves(hierarchy, leaf_names, ids).children == hierarchy.children,
        with_leaves(hierarchy, leaf_names, ids).parent == hierarchy.parent,
    decreases ids.len(),
{
    if ids.len() > 0 {
        with_leaves_same_tree(hierarchy, leaf_names, ids.drop_last());
    }
}

// ---------------------------------------------------------------------------
// Drawing
// ---------------------------------------------------------------------------

impl<N: Number> HierarchyModel<N> {
    /// A tree is drawn from the top: a member on a line of its own, and below it its
    /// children, one step further in, one family after the other.
    pub proof fn trees_are_drawn_from_the_top(
        self,
        names: spec_fn(u32) -> Seq<char>,
        nodes: Seq<(u32, N)>,
        id: u32,
        weight: N,
        depth: nat,
        room: nat,
    )
        requires
            room > 0,
        ensures
            ({
                let one = self.tree_lines(names, seq![(id, weight)], depth, room);
                &&& one.len() > 0
                &&& one[0] == self.tree_line(names, id, weight, depth)
                &&& one.skip(1) == self.tree_lines(
                    names,
                    self.kids(id),
                    depth + 1,
                    (room - 1) as nat,
                )
                &&& self.tree_lines(names, nodes.push((id, weight)), depth, room)
                    == self.tree_lines(names, nodes, depth, room) + one
            }),
    {
        let one = self.tree_lines(names, seq![(id, weight)], depth, room);
        let below = self.tree_lines(names, self.kids(id), depth + 1, (room - 1) as nat);
        let line = self.tree_line(names, id, weight, depth);
        let none = Seq::<(u32, N)>::empty();
        assert(seq![(id, weight)].drop_last() =~= none);
        assert(self.tree_lines(names, none, depth, room) =~= Seq::<Seq<char>>::empty());
        assert(seq![(id, weight)].last() == (id, weight));
        assert(one =~= seq![line] + below);
        assert(one.skip(1) =~= below);
        assert(nodes.push((id, weight)).drop_last() =~= nodes);
        assert(self.tree_lines(names, nodes.push((id, weight)), depth, room) =~= self.tree_lines(
            names,
            nodes,
            depth,
            room,
        ) + one);
    }

    /// The line of a member holds its name, two blanks further in for each step down,
    /// says whether it has children, and tells its weight unless that is one.
    pub proof fn a_line_tells_of_its_member(
        self,
        names: spec_fn(u32) -> Seq<char>,
        id: u32,
        weight: N,
        depth: nat,
    )
        ensures
            self.tree_line(names, id, weight, depth + 1) == "  "@ + self.tree_line(
                names,
                id,
                weight,
                depth,
            ),
            weight.is_unit_spec() && self.kids(id).len() == 0 ==> self.tree_line(
                names,
                id,
                weight,
                0,
            ) == "└─ "@ + names(id) + " (Leaf)"@,
            weight.is_unit_spec() && self.kids(id).len() > 0 ==> self.tree_line(
                names,
                id,
                weight,
                0,
            ) == "└─ "@ + names(id) + " (Parent)"@,
            !weight.is_unit_spec() && self.kids(id).len() == 0 ==> self.tree_line(
                names,
                id,
                weight,
                0,
            ) == "└─ "@ + names(id) + " (Leaf) [w: "@ + weight.shown_spec() + "]"@,
            !weight.is_unit_spec() && self.kids(id).len() > 0 ==> self.tree_line(
                names,
                id,
                weight,
                0,
            ) == "└─ "@ + names(id) + " (Parent) [w: "@ + weight.shown_spec() + "]"@,
    {
        reveal_strlit("");
        reveal_strlit(" (Leaf)");
        reveal_strlit(" (Parent)");
        reveal_strlit(" [w: ");
        reveal_strlit(" (Leaf) [w: ");
        reveal_strlit(" (Parent) [w: ");
        assert(" (Leaf)"@ + " [w: "@ =~= " (Leaf) [w: "@);
        assert(" (Parent)"@ + " [w: "@ =~= " (Parent) [w: "@);
        repeating_puts_in_front("  "@, depth);
        let plain = "└─ "@ + names(id);
        let kind = if self.kids(id).len() > 0 {
            " (Parent)"@
        } else {
            " (Leaf)"@
        };
        let more = if weight.is_unit_spec() {
            ""@
        } else {
            " [w: "@ + weight.shown_spec() + "]"@
        };
        assert(self.tree_line(names, id, weight, depth + 1) =~= "  "@ + self.tree_line(
            names,
            id,
            weight,
            depth,
        ));
        assert(self.tree_line(names, id, weight, 0) =~= plain + kind + more);
        assert(plain + kind + ""@ =~= plain + kind);
        assert(plain + kind + (" [w: "@ + weight.shown_spec() + "]"@) =~= plain + (kind + " [w: "@)
            + weight.shown_spec() + "]"@);
    }
}

/// One more time in front is one more time behind.
proof fn repeating_puts_in_front(part: Seq<char>, n: nat)
    ensures
        repeated(part, n + 1) == part + repeated(part, n),
    decreases n,
{
    if n > 0 {
        repeating_puts_in_front(part, (n - 1) as nat);
    }
    assert(repeated(part, n + 1) =~= part + repeated(part, n));
}

} // verus!
