//! What each change to a hierarchy comes to.

use crate::dimension::dimension::{first_by_name, DimensionModel};
use crate::dimension::hierarchy::{child_ids, kids_without, moved, place_before, HierarchyModel};
use crate::dimension::tree_laws::{kids_distinct, kids_without_members};
use crate::number::Number;
use crate::storage::id_map::{ids_without, ids_without_members, place_of_id, place_of_id_is_first};
use crate::storage::name_map::{keys, lookup_after_put};
use crate::text::{in_order, in_order_total, in_order_transitive, lowercase, place_of_is_first};
use vstd::prelude::*;

verus! {

// ---------------------------------------------------------------------------
// Lists
// ---------------------------------------------------------------------------

proof fn kids_without_in_turn<N>(a: Seq<(u32, N)>, b: Seq<(u32, N)>, id: u32)
    ensures
        kids_without(a + b, id) == kids_without(a, id) + kids_without(b, id),
    decreases b.len(),
{
    if b.len() == 0 {
        assert(a + b =~= a);
        assert(kids_without(a, id) + kids_without(b, id) =~= kids_without(a, id));
    } else {
        assert((a + b).drop_last() =~= a + b.drop_last());
        kids_without_in_turn(a, b.drop_last(), id);
        assert(kids_without(a + b, id) =~= kids_without(a, id) + kids_without(b, id));
    }
}

/// A child of that id in the list makes no difference to the others.
proof fn kids_without_one<N>(a: Seq<(u32, N)>, kid: (u32, N), b: Seq<(u32, N)>)
    ensures
        kids_without(a + seq![kid] + b, kid.0) == kids_without(a + b, kid.0),
{
    let one = seq![kid];
    assert(one.drop_last() =~= Seq::<(u32, N)>::empty());
    assert(one.last() == kid);
    assert(kids_without(one.drop_last(), kid.0) == one.drop_last());
    assert(kids_without(one, kid.0) =~= Seq::<(u32, N)>::empty());
    kids_without_in_turn(a + one, b, kid.0);
    kids_without_in_turn(a, one, kid.0);
    kids_without_in_turn(a, b, kid.0);
    assert(kids_without(a, kid.0) + kids_without(one, kid.0) =~= kids_without(a, kid.0));
}

proof fn ids_without_in_turn(a: Seq<u32>, b: Seq<u32>, id: u32)
    ensures
        ids_without(a + b, id) == ids_without(a, id) + ids_without(b, id),
    decreases b.len(),
{
    if b.len() == 0 {
        assert(a + b =~= a);
        assert(ids_without(a, id) + ids_without(b, id) =~= ids_without(a, id));
    } else {
        assert((a + b).drop_last() =~= a + b.drop_last());
        ids_without_in_turn(a, b.drop_last(), id);
        assert(ids_without(a + b, id) =~= ids_without(a, id) + ids_without(b, id));
    }
}

proof fn ids_without_one(a: Seq<u32>, id: u32, b: Seq<u32>)
    ensures
        ids_without(a + seq![id] + b, id) == ids_without(a + b, id),
{
    let one = seq![id];
    assert(one.drop_last() =~= Seq::<u32>::empty());
    assert(one.last() == id);
    assert(ids_without(one.drop_last(), id) == one.drop_last());
    assert(ids_without(one, id) =~= Seq::<u32>::empty());
    ids_without_in_turn(a + one, b, id);
    ids_without_in_turn(a, one, id);
    ids_without_in_turn(a, b, id);
    assert(ids_without(a, id) + ids_without(one, id) =~= ids_without(a, id));
}

/// A list with one item moved: the others stand as they did.
proof fn moved_kid<N>(kids: Seq<(u32, N)>, from: int, to: int)
    requires
        0 <= from < kids.len(),
        0 <= to < kids.len(),
    ensures
        kids_without(moved(kids, from, to), kids[from].0) == kids_without(kids, kids[from].0),
        moved(kids, from, to)[to] == kids[from],
        moved(kids, from, to).len() == kids.len(),
        forall|k: int|
            to <= k < kids.len() - 1 ==> #[trigger] moved(kids, from, to)[k + 1] == kids.remove(
                from,
            )[k],
{
    let rest = kids.remove(from);
    let now = moved(kids, from, to);
    assert(now =~= rest.take(to) + seq![kids[from]] + rest.skip(to));
    assert(rest =~= rest.take(to) + rest.skip(to));
    kids_without_one(rest.take(to), kids[from], rest.skip(to));
    assert(kids =~= kids.take(from) + seq![kids[from]] + kids.skip(from + 1));
    assert(rest =~= kids.take(from) + kids.skip(from + 1));
    kids_without_one(kids.take(from), kids[from], kids.skip(from + 1));
}

proof fn moved_id(ids: Seq<u32>, from: int, to: int)
    requires
        0 <= from < ids.len(),
        0 <= to < ids.len(),
    ensures
        ids_without(moved(ids, from, to), ids[from]) == ids_without(ids, ids[from]),
        moved(ids, from, to)[to] == ids[from],
        moved(ids, from, to).len() == ids.len(),
        forall|k: int|
            to <= k < ids.len() - 1 ==> #[trigger] moved(ids, from, to)[k + 1] == ids.remove(
                from,
            )[k],
{
    let rest = ids.remove(from);
    let now = moved(ids, from, to);
    assert(now =~= rest.take(to) + seq![ids[from]] + rest.skip(to));
    assert(rest =~= rest.take(to) + rest.skip(to));
    ids_without_one(rest.take(to), ids[from], rest.skip(to));
    assert(ids =~= ids.take(from) + seq![ids[from]] + ids.skip(from + 1));
    assert(rest =~= ids.take(from) + ids.skip(from + 1));
    ids_without_one(ids.take(from), ids[from], ids.skip(from + 1));
}

// ---------------------------------------------------------------------------
// Hierarchies
// ---------------------------------------------------------------------------

impl<N: Number> HierarchyModel<N> {
    /// The member stands under the parent, by that weight.
    pub open spec fn counts_in(self, child: u32, parent: u32, weight: N) -> bool {
        self.kids(parent).contains((child, weight))
    }

    /// Putting a child under a parent gives it that weight there. The other children of
    /// the parent, and those of all others, stay as they are and where they are.
    pub proof fn linking_sets_the_weight(self, parent: u32, child: u32, weight: N)
        requires
            self.one_parent_each(),
        ensures
            self.linked(parent, child, weight).counts_in(child, parent, weight),
            forall|other: u32| #[trigger]
                kids_without(self.linked(parent, child, weight).kids(other), child)
                    == kids_without(self.kids(other), child),
            forall|other: u32|
                other != parent ==> #[trigger] self.linked(parent, child, weight).kids(other)
                    == kids_without(self.kids(other), child),
            self.is_under(child, parent) ==> child_ids(
                self.linked(parent, child, weight).kids(parent),
            ) == child_ids(self.kids(parent)),
            !self.is_under(child, parent) ==> self.linked(parent, child, weight).kids(parent)
                == self.kids(parent).push((child, weight)),
    {
        let after = self.linked(parent, child, weight);
        let kids = self.kids(parent);
        let now = after.kids(parent);
        assert(self.is_under(child, parent) == (self.parent.contains_key(child)
            && self.parent[child] == parent));
        if self.is_under(child, parent) {
            place_of_id_is_first(child_ids(kids), child);
            let i = place_of_id(child_ids(kids), child)->0;
            assert(now == kids.update(i, (child, weight)));
            assert(now[i] == (child, weight));
            assert(kids =~= kids.take(i) + seq![kids[i]] + kids.skip(i + 1));
            assert(now =~= kids.take(i) + seq![(child, weight)] + kids.skip(i + 1));
            kids_without_one(kids.take(i), kids[i], kids.skip(i + 1));
            kids_without_one(kids.take(i), (child, weight), kids.skip(i + 1));
            assert(child_ids(now) =~= child_ids(kids));
        } else {
            assert(now =~= kids.push((child, weight)));
            assert(now[kids.len() as int] == (child, weight));
            assert(now.drop_last() =~= kids);
        }
        assert forall|other: u32| other != parent implies #[trigger] after.kids(other)
            == kids_without(self.kids(other), child) by {
            kids_without_members(self.kids(other), child);
            assert(self.is_under(child, other) == (self.parent.contains_key(child)
                && self.parent[child] == other));
        }
        assert forall|other: u32| #[trigger] kids_without(after.kids(other), child)
            == kids_without(self.kids(other), child) by {
            if other != parent {
                assert(after.kids(other) == kids_without(self.kids(other), child));
                kids_without_members(self.kids(other), child);
                kids_without_members(after.kids(other), child);
            }
        }
    }

    /// Taking a child from a parent leaves the other children of the parent, and those
    /// of all others, as they are and where they are.
    pub proof fn cutting_spares_the_others(self, parent: u32, child: u32)
        requires
            self.one_parent_each(),
            self.is_under(child, parent),
        ensures
            ({
                let cut = HierarchyModel { children: self.cut(parent, child), ..self };
                let after = cut.detached(child);
                &&& forall|other: u32| #[trigger]
                    after.kids(other) == kids_without(self.kids(other), child)
                &&& forall|other: u32| !#[trigger] after.is_under(child, other)
                &&& !after.parent.contains_key(child)
                &&& after.roots.contains(child)
            }),
    {
        let cut = HierarchyModel { children: self.cut(parent, child), ..self };
        let after = cut.detached(child);
        assert forall|other: u32| #[trigger] after.kids(other) == kids_without(
            self.kids(other),
            child,
        ) by {
            kids_without_members(self.kids(other), child);
            assert(self.is_under(child, other) == (self.parent.contains_key(child)
                && self.parent[child] == other));
        }
        assert forall|other: u32| !#[trigger] after.is_under(child, other) by {
            assert(after.kids(other) == kids_without(self.kids(other), child));
            kids_without_members(self.kids(other), child);
        }
        if !self.roots.contains(child) {
            assert(after.roots[self.roots.len() as int] == child);
        }
    }

    /// `id` stands right before `other`, under one parent or at the top level.
    pub open spec fn stands_before(self, id: u32, other: u32) -> bool {
        if self.parent.contains_key(id) {
            let ids = child_ids(self.kids(self.parent[id]));
            exists|k: int|
                0 <= k < ids.len() - 1 && #[trigger] ids[k] == id && ids[k + 1] == other
        } else {
            exists|k: int|
                0 <= k < self.roots.len() - 1 && #[trigger] self.roots[k] == id && self.roots[k
                    + 1] == other
        }
    }

    /// `id` is the first under its parent or at the top level.
    pub open spec fn stands_first(self, id: u32) -> bool {
        if self.parent.contains_key(id) {
            let kids = self.kids(self.parent[id]);
            kids.len() > 0 && kids[0].0 == id
        } else {
            self.roots.len() > 0 && self.roots[0] == id
        }
    }

    /// All members but `id` stand as they did, by the same weights, and `id` counts where
    /// and by what it did.
    pub open spec fn stands_apart_from(self, after: Self, id: u32) -> bool {
        &&& after.parent == self.parent
        &&& after.members == self.members
        &&& after.names == self.names
        &&& ids_without(after.roots, id) == ids_without(self.roots, id)
        &&& after.roots.contains(id) == self.roots.contains(id)
        &&& forall|parent: u32| #[trigger]
            kids_without(after.kids(parent), id) == kids_without(self.kids(parent), id)
        &&& forall|parent: u32, weight: N| #[trigger]
            after.counts_in(id, parent, weight) == self.counts_in(id, parent, weight)
    }

    proof fn a_moved_kid_counts_the_same(
        self,
        after: Self,
        parent: u32,
        id: u32,
        from: int,
        to: int,
    )
        requires
            self.children.contains_key(parent),
            kids_distinct(self.children[parent]),
            0 <= from < self.children[parent].len(),
            0 <= to < self.children[parent].len(),
            self.children[parent][from].0 == id,
            after == (HierarchyModel {
                children: self.children.insert(parent, moved(self.children[parent], from, to)),
                stale: true,
                ..self
            }),
        ensures
            self.stands_apart_from(after, id),
    {
        let kids = self.children[parent];
        moved_kid(kids, from, to);
        assert forall|other: u32| #[trigger] kids_without(after.kids(other), id) == kids_without(
            self.kids(other),
            id,
        ) by {}
        assert forall|other: u32, weight: N| #[trigger]
            after.counts_in(id, other, weight) == self.counts_in(id, other, weight) by {
            if other == parent {
                let now = after.kids(parent);
                let rest = kids.remove(from);
                assert(now =~= rest.take(to) + seq![kids[from]] + rest.skip(to));
                if self.counts_in(id, parent, weight) {
                    let k = choose|k: int| 0 <= k < kids.len() && kids[k] == (id, weight);
                    if k < from {
                        assert(kids[k].0 != kids[from].0);
                    }
                    if from < k {
                        assert(kids[from].0 != kids[k].0);
                    }
                    assert(now[to] == (id, weight));
                }
                if after.counts_in(id, parent, weight) {
                    let k = choose|k: int| 0 <= k < now.len() && now[k] == (id, weight);
                    if k != to {
                        let j = if k < to {
                            k
                        } else {
                            k - 1
                        };
                        assert(rest[j] == now[k]);
                        let i = if j < from {
                            j
                        } else {
                            j + 1
                        };
                        assert(kids[i] == rest[j]);
                        if i < from {
                            assert(kids[i].0 != kids[from].0);
                        } else {
                            assert(kids[from].0 != kids[i].0);
                        }
                    }
                    assert(kids[from] == (id, weight));
                }
            }
        }
    }

    /// Moving a member before a sibling puts it right before it, and moves no other.
    pub proof fn moving_puts_before(self, id: u32, reference: u32)
        requires
            self.one_parent_each(),
            self.siblings(id, reference),
            id != reference,
            !self.parent.contains_key(id) ==> self.roots.contains(id) && self.roots.contains(
                reference,
            ),
        ensures
            self.moved_before(id, reference).stands_before(id, reference),
            self.stands_apart_from(self.moved_before(id, reference), id),
    {
        let after = self.moved_before(id, reference);
        if self.parent.contains_key(id) {
            let parent = self.parent[id];
            assert(self.is_under(id, parent) && self.is_under(reference, parent));
            let kids = self.children[parent];
            let ids = child_ids(kids);
            place_of_id_is_first(ids, id);
            let from = place_of_id(ids, id)->0;
            let rest = ids.remove(from);
            let at = choose|at: int| 0 <= at < ids.len() && ids[at] == reference;
            let left = if at < from {
                at
            } else {
                at - 1
            };
            assert(rest[left] == reference);
            assert(rest.contains(reference));
            place_of_id_is_first(rest, reference);
            let to = place_before(rest, reference);
            assert(rest[to] == reference);
            moved_kid(kids, from, to);
            self.a_moved_kid_counts_the_same(after, parent, id, from, to);
            let now = child_ids(after.kids(parent));
            assert(now[to] == id);
            assert(kids.remove(from)[to].0 == rest[to]);
            assert(moved(kids, from, to)[to + 1] == kids.remove(from)[to]);
            assert(now[to + 1] == reference);
        } else {
            let ids = self.roots;
            place_of_id_is_first(ids, id);
            let from = place_of_id(ids, id)->0;
            let rest = ids.remove(from);
            let at = choose|at: int| 0 <= at < ids.len() && ids[at] == reference;
            let left = if at < from {
                at
            } else {
                at - 1
            };
            assert(rest[left] == reference);
            assert(rest.contains(reference));
            place_of_id_is_first(rest, reference);
            let to = place_before(rest, reference);
            moved_id(ids, from, to);
            assert(after.roots[to] == id);
            assert(moved(ids, from, to)[to + 1] == rest[to]);
            assert(after.roots[to + 1] == reference);
            assert forall|parent: u32| #[trigger] after.kids(parent) == self.kids(parent) by {}
        }
    }

    /// Moving a member to the front puts it before all its siblings, and moves no other.
    pub proof fn moving_puts_first(self, id: u32)
        requires
            self.one_parent_each(),
            !self.parent.contains_key(id) ==> self.roots.contains(id),
        ensures
            self.moved_to_front(id).stands_first(id),
            self.stands_apart_from(self.moved_to_front(id), id),
    {
        let after = self.moved_to_front(id);
        if self.parent.contains_key(id) {
            let parent = self.parent[id];
            assert(self.is_under(id, parent));
            let kids = self.children[parent];
            place_of_id_is_first(child_ids(kids), id);
            let from = place_of_id(child_ids(kids), id)->0;
            moved_kid(kids, from, 0);
            self.a_moved_kid_counts_the_same(after, parent, id, from, 0);
        } else {
            let left = ids_without(self.roots, id);
            ids_without_members(self.roots, id);
            ids_without_members(left, id);
            assert(after.roots =~= Seq::<u32>::empty() + seq![id] + left);
            assert(Seq::<u32>::empty() + left =~= left);
            ids_without_one(Seq::empty(), id, left);
            assert(after.roots[0] == id);
            assert forall|parent: u32| #[trigger] after.kids(parent) == self.kids(parent) by {}
        }
    }
}

// ---------------------------------------------------------------------------
// Dimensions
// ---------------------------------------------------------------------------

impl<N: Number> DimensionModel<N> {
    /// The member `child` counts in `parent` by the weight, in that hierarchy.
    pub open spec fn is_component(
        self,
        hierarchy: Option<Seq<char>>,
        parent: Seq<char>,
        child: Seq<char>,
        weight: N,
    ) -> bool {
        match self.resolved(hierarchy) {
            Some(h) => match (h.id_of(parent), h.id_of(child)) {
                (Some(p), Some(c)) => h.counts_in(c, p, weight),
                _ => false,
            },
            None => false,
        }
    }

    /// Only the hierarchy that is meant has changed.
    pub open spec fn spares_other_hierarchies(
        self,
        after: Self,
        hierarchy: Option<Seq<char>>,
    ) -> bool {
        &&& keys(after.hierarchies) == keys(self.hierarchies)
        &&& after.default_hierarchy == self.default_hierarchy
        &&& forall|p: int|
            0 <= p < self.hierarchies.len() && Some(p) != self.place(
                self.hierarchy_named(hierarchy),
            ) ==> #[trigger] after.hierarchies[p] == self.hierarchies[p]
    }

    /// Putting a child under a parent succeeds in every hierarchy that is there, and the
    /// child then counts in the parent by the weight that was given.
    pub proof fn a_component_counts_by_its_weight(
        self,
        hierarchy: Option<Seq<char>>,
        parent: Seq<char>,
        child: Seq<char>,
        weight: N,
    )
        requires
            self.sound(),
            self.one_parent_each(),
            self.next_id < u32::MAX - 1,
        ensures
            self.component_added(hierarchy, parent, child, weight).1 is Ok == self.resolved(
                hierarchy,
            ) is Some,
            self.resolved(hierarchy) is Some ==> self.component_added(
                hierarchy,
                parent,
                child,
                weight,
            ).0.is_component(hierarchy, parent, child, weight),
    {
        let named = self.hierarchy_named(hierarchy);
        place_of_is_first(keys(self.hierarchies), lowercase(named));
        match self.place(named) {
            None => {},
            Some(p) => {
                self.adding_an_aggregate_keeps_sound(Some(named), parent);
                self.adding_keeps_one_parent(Some(named), parent);
                let (with_parent, found) = self.aggregate_added(Some(named), parent);
                let parent_id = found->Ok_0;
                assert(with_parent.place(named) == Some(p));
                assert(with_parent.hierarchies[p].1.id_of(parent) == Some(parent_id));
                with_parent.adding_keeps_one_parent(None, child);
                let (with_child, child_id) = with_parent.child_found(p, child);
                assert(with_parent.aggregate_made(p, child).one_parent_each());
                let h = with_parent.hierarchies[p].1;
                let now = with_child.hierarchies[p].1;
                assert(keys(with_child.hierarchies) =~= keys(with_parent.hierarchies));
                assert(now.id_of(parent) == Some(parent_id) && now.id_of(child) == Some(
                    child_id,
                )) by {
                    if h.id_of(child) is None {
                        if with_parent.leaf(child) is None && with_parent.id_in(
                            None,
                            child,
                        ) is Some {
                            lookup_after_put(
                                h.members,
                                lowercase(child),
                                child_id,
                                lowercase(parent),
                            );
                            lookup_after_put(
                                h.members,
                                lowercase(child),
                                child_id,
                                lowercase(child),
                            );
                        } else if with_parent.leaf(child) is Some {
                            with_parent.a_leaf_has_one_id(child, p);
                        } else {
                            with_parent.new_leaf_is_found(Some(named), child);
                            with_parent.adding_a_leaf_hides_nothing(child, Some(named), parent);
                        }
                    }
                }
                assert(now.one_parent_each());
                now.linking_sets_the_weight(parent_id, child_id, weight);
                let after = with_child.component_linked(p, parent_id, child_id, weight).0;
                assert(keys(after.hierarchies) =~= keys(with_child.hierarchies));
                assert(after.place(named) == Some(p));
            },
        }
    }

    /// Taking a child from a parent takes only it, and only from this parent.
    pub proof fn a_component_goes_alone(
        self,
        hierarchy: Option<Seq<char>>,
        parent: Seq<char>,
        child: Seq<char>,
    )
        requires
            self.one_parent_each(),
            self.component_removed(hierarchy, parent, child).1 is Ok,
        ensures
            ({
                let after = self.component_removed(hierarchy, parent, child).0;
                let was = self.resolved(hierarchy)->0;
                let now = after.resolved(hierarchy)->0;
                let id = was.id_of(child)->0;
                &&& self.spares_other_hierarchies(after, hierarchy)
                &&& after.resolved(hierarchy) is Some
                &&& now.members == was.members
                &&& was.is_under(id, was.id_of(parent)->0)
                &&& !now.parent.contains_key(id)
                &&& now.roots.contains(id)
                &&& forall|other: u32| #[trigger]
                    now.kids(other) == kids_without(was.kids(other), id)
            }),
    {
        let named = self.hierarchy_named(hierarchy);
        place_of_is_first(keys(self.hierarchies), lowercase(named));
        let p = self.place(named)->0;
        let h = self.hierarchies[p].1;
        assert(self.hierarchies[p].1.one_parent_each());
        let (parent_id, child_id) = (h.id_of(parent)->0, h.id_of(child)->0);
        assert(h.is_under(child_id, parent_id));
        h.cutting_spares_the_others(parent_id, child_id);
        let after = self.component_removed(hierarchy, parent, child).0;
        assert(keys(after.hierarchies) =~= keys(self.hierarchies));
        assert(after.place(named) == Some(p));
    }

    /// Where a member is moved before a sibling it stands right before it, and nothing
    /// else has moved.
    pub proof fn a_member_is_moved_before(
        self,
        hierarchy: Option<Seq<char>>,
        name: Seq<char>,
        reference: Seq<char>,
    )
        requires
            self.one_parent_each(),
            self.moved_before(hierarchy, name, reference).1 is Ok,
            ({
                let h = self.resolved(hierarchy)->0;
                let (id, other) = (h.id_of(name)->0, h.id_of(reference)->0);
                &&& id != other
                &&& !h.parent.contains_key(id) ==> h.roots.contains(id) && h.roots.contains(other)
            }),
        ensures
            ({
                let after = self.moved_before(hierarchy, name, reference).0;
                let was = self.resolved(hierarchy)->0;
                let now = after.resolved(hierarchy)->0;
                let (id, other) = (was.id_of(name)->0, was.id_of(reference)->0);
                &&& self.spares_other_hierarchies(after, hierarchy)
                &&& after.resolved(hierarchy) is Some
                &&& now.stands_before(id, other)
                &&& was.stands_apart_from(now, id)
            }),
    {
        let named = self.hierarchy_named(hierarchy);
        place_of_is_first(keys(self.hierarchies), lowercase(named));
        let p = self.place(named)->0;
        let h = self.hierarchies[p].1;
        assert(self.hierarchies[p].1.one_parent_each());
        h.moving_puts_before(h.id_of(name)->0, h.id_of(reference)->0);
        let after = self.moved_before(hierarchy, name, reference).0;
        assert(keys(after.hierarchies) =~= keys(self.hierarchies));
        assert(after.place(named) == Some(p));
    }

    /// Where a member is moved to the front it stands before all its siblings, and
    /// nothing else has moved.
    pub proof fn a_member_is_moved_to_the_front(
        self,
        hierarchy: Option<Seq<char>>,
        name: Seq<char>,
    )
        requires
            self.one_parent_each(),
            self.moved_to_front(hierarchy, name).1 is Ok,
            ({
                let h = self.resolved(hierarchy)->0;
                let id = h.id_of(name)->0;
                !h.parent.contains_key(id) ==> h.roots.contains(id)
            }),
        ensures
            ({
                let after = self.moved_to_front(hierarchy, name).0;
                let was = self.resolved(hierarchy)->0;
                let now = after.resolved(hierarchy)->0;
                let id = was.id_of(name)->0;
                &&& self.spares_other_hierarchies(after, hierarchy)
                &&& after.resolved(hierarchy) is Some
                &&& now.stands_first(id)
                &&& was.stands_apart_from(now, id)
            }),
    {
        let named = self.hierarchy_named(hierarchy);
        place_of_is_first(keys(self.hierarchies), lowercase(named));
        let p = self.place(named)->0;
        let h = self.hierarchies[p].1;
        assert(self.hierarchies[p].1.one_parent_each());
        h.moving_puts_first(h.id_of(name)->0);
        let after = self.moved_to_front(hierarchy, name).0;
        assert(keys(after.hierarchies) =~= keys(self.hierarchies));
        assert(after.place(named) == Some(p));
    }

    /// The default member is the one that was named, for as long as it goes by that
    /// name; nothing else changes.
    pub proof fn the_named_member_is_the_default(self, name: Seq<char>)
        ensures
            self.default_set(name).1 is Ok == self.id_of(name) is Some,
            self.default_set(name).1 is Err ==> self.default_set(name).0 == self,
            self.id_of(name) is Some ==> {
                let after = self.default_set(name).0;
                &&& after.default_member_id == after.id_of(name)
                &&& after == DimensionModel {
                    default_member_id: after.default_member_id,
                    ..self
                }
            },
    {
    }

    /// The first leaf of a dimension is its default member, and stays it when others
    /// come.
    pub proof fn the_first_leaf_is_the_default(self, name: Seq<char>)
        requires
            self.leaf(name) is None,
            self.id_in(None, name) is None,
        ensures
            self.leaf_added(name).0.default_member_id == (match self.default_member_id {
                Some(id) => Some(id),
                None => Some(self.leaf_added(name).1),
            }),
    {
    }
}

// ---------------------------------------------------------------------------
// Names without a hierarchy
// ---------------------------------------------------------------------------

proof fn first_by_name_is_first<N: Number>(
    hierarchies: Seq<(Seq<char>, HierarchyModel<N>)>,
    member: Seq<char>,
)
    ensures
        match first_by_name(hierarchies, member) {
            Some(i) => 0 <= i < hierarchies.len() && hierarchies[i].1.id_of(member) is Some
                && forall|k: int|
                0 <= k < hierarchies.len() && (#[trigger] hierarchies[k]).1.id_of(member) is Some
                    ==> in_order(hierarchies[i].0, hierarchies[k].0),
            None => forall|k: int|
                0 <= k < hierarchies.len() ==> (#[trigger] hierarchies[k]).1.id_of(
                    member,
                ) is None,
        },
    decreases hierarchies.len(),
{
    if hierarchies.len() > 0 {
        let rest = hierarchies.drop_last();
        let last = hierarchies.len() - 1;
        first_by_name_is_first(rest, member);
        in_order_total(hierarchies[last].0, hierarchies[last].0);
        match first_by_name(rest, member) {
            Some(i) => {
                assert(rest[i] == hierarchies[i]);
                in_order_total(hierarchies[i].0, hierarchies[last].0);
                assert forall|k: int|
                    0 <= k < hierarchies.len() && (#[trigger] hierarchies[k]).1.id_of(
                        member,
                    ) is Some implies in_order(
                    hierarchies[first_by_name(hierarchies, member)->0].0,
                    hierarchies[k].0,
                ) by {
                    if k < last {
                        assert(rest[k] == hierarchies[k]);
                        if first_by_name(hierarchies, member) == Some(last) {
                            in_order_transitive(
                                hierarchies[last].0,
                                hierarchies[i].0,
                                hierarchies[k].0,
                            );
                        }
                    }
                }
            },
            None => {
                assert forall|k: int|
                    0 <= k < last implies (#[trigger] hierarchies[k]).1.id_of(member) is None by {
                    assert(rest[k] == hierarchies[k]);
                }
            },
        }
    }
}

impl<N: Number> DimensionModel<N> {
    /// A member that is named alone is the leaf of that name, else the one that the
    /// default hierarchy has, else that of the hierarchy whose name comes first among
    /// those that have one. It is found if any of them has it.
    pub proof fn a_name_alone_is_found(self, member: Seq<char>)
        ensures
            self.leaf(member) is Some ==> self.id_of(member) == self.leaf(member),
            self.leaf(member) is None && self.id_in(None, member) is Some ==> self.id_of(member)
                == self.id_in(None, member),
            self.leaf(member) is None && self.id_in(None, member) is None && self.id_of(
                member,
            ) is Some ==> exists|i: int|
                0 <= i < self.hierarchies.len() && (#[trigger] self.hierarchies[i]).1.id_of(member)
                    == self.id_of(member) && forall|k: int|
                    0 <= k < self.hierarchies.len() && (#[trigger] self.hierarchies[k]).1.id_of(
                        member,
                    ) is Some ==> in_order(self.hierarchies[i].0, self.hierarchies[k].0),
            self.id_of(member) is None ==> self.leaf(member) is None && forall|k: int|
                0 <= k < self.hierarchies.len() ==> (#[trigger] self.hierarchies[k]).1.id_of(
                    member,
                ) is None,
    {
        first_by_name_is_first(self.hierarchies, member);
        match first_by_name(self.hierarchies, member) {
            Some(i) => {
                assert(self.hierarchies[i].1.id_of(member) is Some);
            },
            None => {},
        }
    }
}

} // verus!
