//! What holds of the order in which the members of a hierarchy are shown.

use crate::dimension::dimension::{ids_known, with_leaves, DimensionModel};
use crate::dimension::hierarchy::{all_with, child_ids, moved, place_before, HierarchyModel};
use crate::number::Number;
use crate::storage::id_map::{
    ids_with, ids_without, ids_without_members, in_turn, place_of_id, place_of_id_is_first,
};
use crate::storage::name_map::{keys, lookup_found};
use crate::text::{lowercase, place_of_is_first};
use vstd::prelude::*;

verus! {

impl<N: Number> HierarchyModel<N> {
    /// The member `n` steps above.
    pub open spec fn above(self, id: u32, n: nat) -> Option<u32>
        decreases n,
    {
        if n == 0 {
            Some(id)
        } else if self.parent.contains_key(id) {
            self.above(self.parent[id], (n - 1) as nat)
        } else {
            None
        }
    }

    /// The member is `n` steps below one that has no parent.
    pub open spec fn at_level(self, id: u32, n: nat) -> bool {
        match self.above(id, n) {
            Some(top) => !self.parent.contains_key(top),
            None => false,
        }
    }

    /// What is at the top level is there once and has no parent.
    pub open spec fn tops_are_free(self) -> bool {
        &&& self.roots.no_duplicates()
        &&& forall|i: int|
            0 <= i < self.roots.len() ==> !self.parent.contains_key(#[trigger] self.roots[i])
    }

    /// A step further up.
    proof fn above_once_more(self, id: u32, n: nat)
        ensures
            self.above(id, n + 1) == (match self.above(id, n) {
                Some(other) => if self.parent.contains_key(other) {
                    Some(self.parent[other])
                } else {
                    None
                },
                None => None,
            }),
        decreases n,
    {
        if n > 0 && self.parent.contains_key(id) {
            self.above_once_more(self.parent[id], (n - 1) as nat);
        }
        if n == 0 && self.parent.contains_key(id) {
            assert(self.above(self.parent[id], 0) == Some(self.parent[id]));
        }
    }

    /// A member is at one level.
    proof fn one_level_each(self, id: u32, n: nat, m: nat)
        requires
            self.at_level(id, n),
            self.at_level(id, m),
        ensures
            n == m,
        decreases n,
    {
        if n > 0 && m > 0 {
            self.one_level_each(self.parent[id], (n - 1) as nat, (m - 1) as nat);
        }
    }

    /// A child is a level below its parent.
    proof fn child_is_below(self, child: u32, parent: u32, depth: nat)
        requires
            self.parent.contains_key(child),
            self.parent[child] == parent,
            self.at_level(parent, depth),
        ensures
            self.at_level(child, depth + 1),
    {
        assert(self.above(child, depth + 1) == self.above(parent, depth));
    }

    /// A child of a member.
    proof fn child_has_parent(self, parent: u32, i: int)
        requires
            self.one_parent_each(),
            0 <= i < self.kids(parent).len(),
        ensures
            self.parent.contains_key(child_ids(self.kids(parent))[i]),
            self.parent[child_ids(self.kids(parent))[i]] == parent,
    {
        let child = child_ids(self.kids(parent))[i];
        assert(self.is_under(child, parent));
    }

    /// Each of the ids is at that level.
    spec fn all_at(self, ids: Seq<u32>, depth: nat) -> bool {
        forall|i: int| 0 <= i < ids.len() ==> self.at_level(#[trigger] ids[i], depth)
    }

    /// `id` lies below one of the ids, which are at level `depth`.
    spec fn lies_below(self, ids: Seq<u32>, depth: nat, id: u32) -> bool {
        exists|n: nat|
            #![trigger self.at_level(id, n)]
            n >= depth && self.at_level(id, n) && self.above(id, (n - depth) as nat) is Some
                && ids.contains(self.above(id, (n - depth) as nat)->0)
    }

    proof fn children_are_below(self, parent: u32, depth: nat)
        requires
            self.one_parent_each(),
            self.at_level(parent, depth),
        ensures
            self.all_at(child_ids(self.kids(parent)), depth + 1),
            child_ids(self.kids(parent)).no_duplicates(),
    {
        let ids = child_ids(self.kids(parent));
        assert forall|i: int| 0 <= i < ids.len() implies self.at_level(
            #[trigger] ids[i],
            depth + 1,
        ) by {
            self.child_has_parent(parent, i);
            self.child_is_below(ids[i], parent, depth);
        }
        if self.children.contains_key(parent) {
            let kids = self.children[parent];
            assert forall|i: int, j: int| 0 <= i < ids.len() && 0 <= j < ids.len() && i
                != j implies ids[i] != ids[j] by {
                if i < j {
                    assert(kids[i].0 != kids[j].0);
                } else {
                    assert(kids[j].0 != kids[i].0);
                }
            }
        }
    }

    /// Everything that is listed lies below what was to be listed.
    proof fn listed_lies_below(self, ids: Seq<u32>, depth: nat)
        requires
            self.one_parent_each(),
            self.all_at(ids, depth),
        ensures
            forall|i: int|
                0 <= i < self.flattened(ids, depth).len() ==> self.lies_below(
                    ids,
                    depth,
                    #[trigger] self.flattened(ids, depth)[i],
                ),
        decreases self.members.len() + 2 - depth, ids.len(),
    {
        if !(depth > self.members.len() + 1 || ids.len() == 0) {
            let rest = ids.drop_last();
            let last = ids.last();
            let kids = child_ids(self.kids(last));
            assert(self.at_level(ids[ids.len() - 1], depth));
            assert forall|i: int| 0 <= i < rest.len() implies self.at_level(
                #[trigger] rest[i],
                depth,
            ) by {
                assert(rest[i] == ids[i]);
            }
            self.children_are_below(last, depth);
            self.listed_lies_below(rest, depth);
            self.listed_lies_below(kids, depth + 1);
            let first = self.flattened(rest, depth);
            let more = self.flattened(kids, depth + 1);
            let all = self.flattened(ids, depth);
            assert forall|i: int| 0 <= i < all.len() implies self.lies_below(
                ids,
                depth,
                #[trigger] all[i],
            ) by {
                let id = all[i];
                if i < first.len() {
                    assert(first[i] == id);
                    let n = choose|n: nat|
                        #![trigger self.at_level(id, n)]
                        n >= depth && self.at_level(id, n) && self.above(
                            id,
                            (n - depth) as nat,
                        ) is Some && rest.contains(self.above(id, (n - depth) as nat)->0);
                    let top = self.above(id, (n - depth) as nat)->0;
                    let k = choose|k: int| 0 <= k < rest.len() && rest[k] == top;
                    assert(ids[k] == top);
                    assert(self.at_level(id, n));
                } else if i == first.len() {
                    assert(id == last);
                    assert(self.at_level(id, depth));
                    assert(self.above(id, 0) == Some(id));
                    assert(ids[ids.len() - 1] == id);
                } else {
                    assert(more[i - first.len() - 1] == id);
                    self.lies_below_parent(last, depth, id);
                    let n = choose|n: nat|
                        #![trigger self.at_level(id, n)]
                        n >= depth + 1 && self.at_level(id, n) && self.above(
                            id,
                            (n - depth) as nat,
                        ) == Some(last);
                    assert(self.at_level(id, n));
                    assert(ids[ids.len() - 1] == last);
                }
            }
        }
    }

    /// What lies below the children of a member lies below the member.
    proof fn lies_below_parent(self, parent: u32, depth: nat, id: u32)
        requires
            self.one_parent_each(),
            self.lies_below(child_ids(self.kids(parent)), depth + 1, id),
        ensures
            exists|n: nat|
                #![trigger self.at_level(id, n)]
                n >= depth + 1 && self.at_level(id, n) && self.above(id, (n - depth) as nat)
                    == Some(parent),
    {
        let kids = child_ids(self.kids(parent));
        let n = choose|n: nat|
            #![trigger self.at_level(id, n)]
            n >= depth + 1 && self.at_level(id, n) && self.above(
                id,
                (n - (depth + 1)) as nat,
            ) is Some && kids.contains(self.above(id, (n - (depth + 1)) as nat)->0);
        let child = self.above(id, (n - (depth + 1)) as nat)->0;
        let k = choose|k: int| 0 <= k < kids.len() && kids[k] == child;
        self.child_has_parent(parent, k);
        self.above_once_more(id, (n - (depth + 1)) as nat);
        assert((n - depth) as nat == (n - (depth + 1)) as nat + 1);
        assert(self.at_level(id, n));
    }

    /// Nothing is listed twice.
    proof fn listed_once(self, ids: Seq<u32>, depth: nat)
        requires
            self.one_parent_each(),
            self.all_at(ids, depth),
            ids.no_duplicates(),
        ensures
            self.flattened(ids, depth).no_duplicates(),
        decreases self.members.len() + 2 - depth, ids.len(),
    {
        if !(depth > self.members.len() + 1 || ids.len() == 0) {
            let rest = ids.drop_last();
            let last = ids.last();
            let kids = child_ids(self.kids(last));
            assert(self.at_level(ids[ids.len() - 1], depth));
            assert forall|i: int| 0 <= i < rest.len() implies self.at_level(
                #[trigger] rest[i],
                depth,
            ) by {
                assert(rest[i] == ids[i]);
            }
            self.children_are_below(last, depth);
            self.listed_once(rest, depth);
            self.listed_once(kids, depth + 1);
            self.listed_lies_below(rest, depth);
            self.listed_lies_below(kids, depth + 1);
            let first = self.flattened(rest, depth);
            let more = self.flattened(kids, depth + 1);
            let all = self.flattened(ids, depth);
            // What is listed first lies below another member than the last one.
            assert forall|i: int| 0 <= i < first.len() implies #[trigger] first[i] != last
                && !self.lies_below(kids, depth + 1, first[i]) by {
                let id = first[i];
                if id == last || self.lies_below(kids, depth + 1, id) {
                    assert(self.lies_below(rest, depth, id));
                    let n = choose|n: nat|
                        #![trigger self.at_level(id, n)]
                        n >= depth && self.at_level(id, n) && self.above(id, (n - depth) as nat) is Some
                            && rest.contains(self.above(id, (n - depth) as nat)->0);
                    if id == last {
                        self.one_level_each(id, n, depth);
                        assert(self.above(id, 0) == Some(id));
                    } else {
                        self.lies_below_parent(last, depth, id);
                        let m = choose|m: nat|
                            #![trigger self.at_level(id, m)]
                            m >= depth + 1 && self.at_level(id, m) && self.above(
                                id,
                                (m - depth) as nat,
                            ) == Some(last);
                        self.one_level_each(id, n, m);
                    }
                    assert(rest.contains(last));
                    let k = choose|k: int| 0 <= k < rest.len() && rest[k] == last;
                    assert(ids[k] == ids[ids.len() - 1]);
                }
            }
            assert forall|j: int| 0 <= j < more.len() implies #[trigger] more[j] != last by {
                let id = more[j];
                assert(self.lies_below(kids, depth + 1, id));
                if id == last {
                    let n = choose|n: nat|
                        #![trigger self.at_level(id, n)]
                        n >= depth + 1 && self.at_level(id, n);
                    self.one_level_each(id, n, depth);
                }
            }
            assert forall|i: int, j: int| 0 <= i < j < all.len() implies all[i] != all[j] by {
                if i < first.len() {
                    assert(all[i] == first[i]);
                    if j < first.len() {
                        assert(all[j] == first[j]);
                    } else if j > first.len() {
                        assert(all[j] == more[j - first.len() - 1]);
                        assert(self.lies_below(kids, depth + 1, more[j - first.len() - 1]));
                    }
                } else {
                    assert(all[j] == more[j - first.len() - 1]);
                    if i > first.len() {
                        assert(all[i] == more[i - first.len() - 1]);
                    }
                }
            }
        }
    }

    /// A parent is listed before its children.
    proof fn parent_is_listed_first(self, ids: Seq<u32>, depth: nat)
        requires
            self.one_parent_each(),
        ensures
            forall|j: int|
                0 <= j < self.flattened(ids, depth).len() ==> {
                    let id = #[trigger] self.flattened(ids, depth)[j];
                    ids.contains(id) || (self.parent.contains_key(id) && self.flattened(
                        ids,
                        depth,
                    ).take(j).contains(self.parent[id]))
                },
        decreases self.members.len() + 2 - depth, ids.len(),
    {
        if !(depth > self.members.len() + 1 || ids.len() == 0) {
            let rest = ids.drop_last();
            let last = ids.last();
            let kids = child_ids(self.kids(last));
            self.parent_is_listed_first(rest, depth);
            self.parent_is_listed_first(kids, depth + 1);
            let first = self.flattened(rest, depth);
            let more = self.flattened(kids, depth + 1);
            let all = self.flattened(ids, depth);
            assert forall|j: int| 0 <= j < all.len() implies {
                let id = #[trigger] all[j];
                ids.contains(id) || (self.parent.contains_key(id) && all.take(j).contains(
                    self.parent[id],
                ))
            } by {
                let id = all[j];
                if j < first.len() {
                    assert(first[j] == id);
                    if rest.contains(id) {
                        let k = choose|k: int| 0 <= k < rest.len() && rest[k] == id;
                        assert(ids[k] == id);
                    } else {
                        assert(all.take(j) =~= first.take(j));
                    }
                } else if j == first.len() {
                    assert(ids[ids.len() - 1] == id);
                } else {
                    let at = j - first.len() - 1;
                    assert(more[at] == id);
                    if kids.contains(id) {
                        let k = choose|k: int| 0 <= k < kids.len() && kids[k] == id;
                        self.child_has_parent(last, k);
                        assert(all.take(j)[first.len() as int] == last);
                    } else {
                        let k = choose|k: int|
                            0 <= k < more.take(at).len() && more.take(at)[k] == self.parent[id];
                        assert(all.take(j)[first.len() + 1 + k] == self.parent[id]);
                    }
                }
            }
        }
    }

    /// What is to be listed, and what is listed below it, is listed.
    proof fn part_is_listed(self, ids: Seq<u32>, depth: nat, at: int, id: u32)
        requires
            depth <= self.members.len() + 1,
            0 <= at < ids.len(),
            id == ids[at] || self.flattened(child_ids(self.kids(ids[at])), depth + 1).contains(id),
        ensures
            self.flattened(ids, depth).contains(id),
        decreases ids.len(),
    {
        let rest = ids.drop_last();
        let first = self.flattened(rest, depth);
        let more = self.flattened(child_ids(self.kids(ids.last())), depth + 1);
        let all = self.flattened(ids, depth);
        if at < ids.len() - 1 {
            assert(rest[at] == ids[at]);
            self.part_is_listed(rest, depth, at, id);
            let k = choose|k: int| 0 <= k < first.len() && first[k] == id;
            assert(all[k] == id);
        } else if id == ids[at] {
            assert(all[first.len() as int] == id);
        } else {
            let k = choose|k: int| 0 <= k < more.len() && more[k] == id;
            assert(all[first.len() + 1 + k] == id);
        }
    }

    /// What lies below one of the ids is listed, as far down as paths are followed.
    proof fn below_is_listed(self, ids: Seq<u32>, depth: nat, id: u32, steps: nat)
        requires
            self.one_parent_each(),
            self.above(id, steps) is Some,
            ids.contains(self.above(id, steps)->0),
            depth + steps <= self.members.len() + 1,
        ensures
            self.flattened(ids, depth).contains(id),
        decreases steps,
    {
        let top = self.above(id, steps)->0;
        let at = choose|at: int| 0 <= at < ids.len() && ids[at] == top;
        if steps > 0 {
            let n = (steps - 1) as nat;
            self.above_once_more(id, n);
            let child = self.above(id, n)->0;
            let kids = child_ids(self.kids(top));
            assert(self.is_under(child, top));
            self.below_is_listed(kids, depth + 1, id, n);
        }
        self.part_is_listed(ids, depth, at, id);
    }

    /// The display order lists no member twice, and each behind its parent.
    pub proof fn order_lists_members_once(self)
        requires
            self.one_parent_each(),
            self.tops_are_free(),
        ensures
            self.rebuilt().order.no_duplicates(),
            forall|j: int|
                #![trigger self.rebuilt().order[j]]
                0 <= j < self.rebuilt().order.len() && self.parent.contains_key(
                    self.rebuilt().order[j],
                ) ==> self.rebuilt().order.take(j).contains(
                    self.parent[self.rebuilt().order[j]],
                ),
    {
        assert forall|i: int| 0 <= i < self.roots.len() implies self.at_level(
            #[trigger] self.roots[i],
            0,
        ) by {
            assert(!self.parent.contains_key(self.roots[i]));
        }
        self.listed_once(self.roots, 0);
        self.parent_is_listed_first(self.roots, 0);
        let order = self.rebuilt().order;
        assert forall|j: int| #![trigger order[j]] 0 <= j < order.len()
            && self.parent.contains_key(order[j]) implies order.take(j).contains(
            self.parent[order[j]],
        ) by {
            let id = self.flattened(self.roots, 0)[j];
            if self.roots.contains(id) {
                let k = choose|k: int| 0 <= k < self.roots.len() && self.roots[k] == id;
                assert(!self.parent.contains_key(self.roots[k]));
            }
        }
    }

    /// The display order lists every member that lies below the top level, by no
    /// more steps than there are members.
    pub proof fn order_lists_what_is_below_the_top(self, id: u32, steps: nat)
        requires
            self.one_parent_each(),
            self.above(id, steps) is Some,
            self.roots.contains(self.above(id, steps)->0),
            steps <= self.members.len(),
        ensures
            self.rebuilt().order.contains(id),
    {
        self.below_is_listed(self.roots, 0, id, steps);
    }
}

// ---------------------------------------------------------------------------
// The top level
// ---------------------------------------------------------------------------

/// An id more at the end, unless it is there.
pub proof fn with_id_members(ids: Seq<u32>, id: u32)
    ensures
        forall|other: u32| #[trigger]
            ids_with(ids, id).contains(other) == (other == id || ids.contains(other)),
        ids.no_duplicates() ==> ids_with(ids, id).no_duplicates(),
{
    if !ids.contains(id) {
        let all = ids.push(id);
        assert forall|other: u32| #[trigger] all.contains(other) == (other == id || ids.contains(
            other,
        )) by {
            if ids.contains(other) {
                let k = choose|k: int| 0 <= k < ids.len() && ids[k] == other;
                assert(all[k] == other);
            }
            assert(all[ids.len() as int] == id);
        }
    }
}

pub proof fn all_with_members(ids: Seq<u32>, others: Seq<u32>)
    ensures
        forall|id: u32| #[trigger]
            all_with(ids, others).contains(id) == (ids.contains(id) || others.contains(id)),
        ids.no_duplicates() ==> all_with(ids, others).no_duplicates(),
    decreases others.len(),
{
    if others.len() > 0 {
        let rest = others.drop_last();
        all_with_members(ids, rest);
        with_id_members(all_with(ids, rest), others.last());
        assert forall|id: u32| #[trigger]
            all_with(ids, others).contains(id) == (ids.contains(id) || others.contains(id)) by {
            assert(all_with(ids, rest).contains(id) == (ids.contains(id) || rest.contains(id)));
            if rest.contains(id) {
                let k = choose|k: int| 0 <= k < rest.len() && rest[k] == id;
                assert(others[k] == id);
            }
            if others.contains(id) && id != others.last() {
                let k = choose|k: int| 0 <= k < others.len() && others[k] == id;
                assert(rest[k] == id);
            }
            assert(others[others.len() - 1] == others.last());
        }
    }
}

/// A list with one item moved holds the same.
proof fn moved_members(ids: Seq<u32>, from: int, to: int)
    requires
        0 <= from < ids.len(),
        0 <= to < ids.len(),
    ensures
        forall|id: u32| #[trigger] moved(ids, from, to).contains(id) ==> ids.contains(id),
        ids.no_duplicates() ==> moved(ids, from, to).no_duplicates(),
{
    let all = moved(ids, from, to);
    let source = |k: int|
        if k == to {
            from
        } else {
            let r = if k < to {
                k
            } else {
                k - 1
            };
            if r < from {
                r
            } else {
                r + 1
            }
        };
    assert forall|k: int| 0 <= k < all.len() implies #[trigger] all[k] == ids[source(k)] && 0
        <= source(k) < ids.len() by {}
    if ids.no_duplicates() {
        assert forall|a: int, b: int| 0 <= a < b < all.len() implies all[a] != all[b] by {
            assert(source(a) != source(b));
            assert(all[a] == ids[source(a)] && all[b] == ids[source(b)]);
        }
    }
    assert forall|id: u32| #[trigger] all.contains(id) implies ids.contains(id) by {
        let k = choose|k: int| 0 <= k < all.len() && all[k] == id;
        assert(all[k] == ids[source(k)]);
    }
}

impl<N: Number> HierarchyModel<N> {
    /// The top level is as it should be, the display order is up to date or known
    /// not to be, and no id has a parent that is not yet given out.
    pub open spec fn orderly(self, next: u32) -> bool {
        &&& self.tops_are_free()
        &&& self.stale || self.order == self.rebuilt().order
        &&& forall|id: u32| #[trigger] self.parent.contains_key(id) ==> id < next
    }

    /// The display order that is asked for is the order of the members as they
    /// are.
    pub proof fn order_is_up_to_date(self, next: u32)
        requires
            self.orderly(next),
        ensures
            self.ensured().order == self.rebuilt().order,
            self.ensured().orderly(next),
            self.rebuilt().orderly(next),
    {
        let rebuilt = self.rebuilt();
        self.same_listing(rebuilt, self.roots, 0);
    }

    /// What has the same members in number and the same children lists the same.
    proof fn same_listing(self, other: Self, ids: Seq<u32>, depth: nat)
        requires
            other.members.len() == self.members.len(),
            other.children == self.children,
        ensures
            other.flattened(ids, depth) == self.flattened(ids, depth),
        decreases self.members.len() + 2 - depth, ids.len(),
    {
        if !(depth > self.members.len() + 1 || ids.len() == 0) {
            self.same_listing(other, ids.drop_last(), depth);
            assert(other.kids(ids.last()) == self.kids(ids.last()));
            self.same_listing(other, child_ids(self.kids(ids.last())), depth + 1);
        }
    }

    /// The top level is as it should be where it holds only what has no parent.
    proof fn tops_by_members(self)
        requires
            self.roots.no_duplicates(),
            forall|id: u32| #[trigger] self.roots.contains(id) ==> !self.parent.contains_key(id),
        ensures
            self.tops_are_free(),
    {
        assert forall|i: int| 0 <= i < self.roots.len() implies !self.parent.contains_key(
            #[trigger] self.roots[i],
        ) by {
            assert(self.roots.contains(self.roots[i]));
        }
    }

    proof fn tops_have_no_parent(self)
        requires
            self.tops_are_free(),
        ensures
            forall|id: u32| #[trigger] self.roots.contains(id) ==> !self.parent.contains_key(id),
    {
        assert forall|id: u32| #[trigger]
            self.roots.contains(id) implies !self.parent.contains_key(id) by {
            let k = choose|k: int| 0 <= k < self.roots.len() && self.roots[k] == id;
            assert(!self.parent.contains_key(self.roots[k]));
        }
    }

    proof fn members_come_orderly(self, next: u32, name: Seq<char>, id: u32)
        requires
            self.orderly(next),
        ensures
            !self.parent.contains_key(id) ==> self.with_leaf(name, id).orderly(next),
            self.with_aggregate(name, id).orderly(next),
            self.without_alias(id).orderly(next),
    {
        self.tops_have_no_parent();
        with_id_members(self.roots, id);
        ids_without_members(self.roots, id);
        if !self.parent.contains_key(id) {
            self.with_leaf(name, id).tops_by_members();
        }
        self.with_aggregate(name, id).tops_by_members();
        self.without_alias(id).tops_by_members();
    }

    proof fn links_are_orderly(self, next: u32, parent: u32, child: u32, weight: N)
        requires
            self.orderly(next),
        ensures
            child < next ==> self.linked(parent, child, weight).orderly(next),
            (HierarchyModel { children: self.cut(parent, child), ..self }).detached(child).orderly(
                next,
            ),
    {
        self.tops_have_no_parent();
        ids_without_members(self.roots, child);
        with_id_members(self.roots, child);
        self.linked(parent, child, weight).tops_by_members();
        (HierarchyModel { children: self.cut(parent, child), ..self }).detached(
            child,
        ).tops_by_members();
    }

    proof fn removal_is_orderly(self, next: u32, id: u32)
        requires
            self.orderly(next),
        ensures
            self.without_member(id).orderly(next),
    {
        let detached = if self.parent.contains_key(id) {
            HierarchyModel {
                children: self.cut(self.parent[id], id),
                parent: self.parent.remove(id),
                ..self
            }
        } else {
            self
        };
        let orphans = child_ids(detached.kids(id));
        let after = self.without_member(id);
        self.tops_have_no_parent();
        ids_without_members(self.roots, id);
        all_with_members(ids_without(self.roots, id), orphans);
        assert forall|other: u32| #[trigger]
            after.roots.contains(other) implies !after.parent.contains_key(other) by {
            if orphans.contains(other) {
                assert(orphans.to_set().contains(other));
            } else {
                assert(ids_without(self.roots, id).contains(other));
            }
        }
        after.tops_by_members();
    }

    proof fn moves_are_orderly(self, next: u32, id: u32, reference: u32)
        requires
            self.orderly(next),
        ensures
            self.moved_before(id, reference).orderly(next),
            self.moved_to_front(id).orderly(next),
    {
        self.tops_have_no_parent();
        if !self.parent.contains_key(id) {
            place_of_id_is_first(self.roots, id);
            match place_of_id(self.roots, id) {
                Some(i) => {
                    let rest = self.roots.remove(i);
                    place_of_id_is_first(rest, reference);
                    moved_members(self.roots, i, place_before(rest, reference));
                },
                None => {},
            }
            self.moved_before(id, reference).tops_by_members();
            let rest = ids_without(self.roots, id);
            let front = self.moved_to_front(id);
            ids_without_members(self.roots, id);
            assert forall|a: int, b: int| 0 <= a < b < front.roots.len() implies front.roots[a]
                != front.roots[b] by {
                assert(front.roots[b] == rest[b - 1]);
                assert(rest.contains(rest[b - 1]));
                if a > 0 {
                    assert(front.roots[a] == rest[a - 1]);
                }
            }
            assert forall|other: u32| #[trigger]
                front.roots.contains(other) implies !front.parent.contains_key(other) by {
                let k = choose|k: int| 0 <= k < front.roots.len() && front.roots[k] == other;
                if k > 0 {
                    assert(rest[k - 1] == other);
                    assert(rest.contains(other));
                }
            }
            front.tops_by_members();
        }
    }
}

proof fn with_leaves_is_orderly<N: Number>(
    hierarchy: HierarchyModel<N>,
    leaf_names: Map<u32, Seq<char>>,
    ids: Seq<u32>,
    next: u32,
)
    requires
        hierarchy.orderly(next),
        hierarchy.parent == Map::<u32, u32>::empty(),
    ensures
        with_leaves(hierarchy, leaf_names, ids).orderly(next),
        with_leaves(hierarchy, leaf_names, ids).parent == Map::<u32, u32>::empty(),
    decreases ids.len(),
{
    if ids.len() > 0 {
        with_leaves_is_orderly(hierarchy, leaf_names, ids.drop_last(), next);
        with_leaves(hierarchy, leaf_names, ids.drop_last()).members_come_orderly(
            next,
            leaf_names[ids.last()],
            ids.last(),
        );
    }
}

// ---------------------------------------------------------------------------
// Every hierarchy of a dimension
// ---------------------------------------------------------------------------

impl<N: Number> DimensionModel<N> {
    /// In every hierarchy the top level is as it should be.
    pub open spec fn orderly(self) -> bool {
        forall|p: int|
            0 <= p < self.hierarchies.len() ==> (#[trigger] self.hierarchies[p]).1.orderly(
                self.next_id,
            )
    }

    /// Whenever the members of a hierarchy are shown, none comes twice, and each
    /// comes behind its parent.
    pub proof fn members_are_shown_once(self, p: int)
        requires
            self.one_parent_each(),
            self.orderly(),
            0 <= p < self.hierarchies.len(),
        ensures
            ({
                let h = self.hierarchies[p].1;
                let order = h.ensured().order;
                &&& order.no_duplicates()
                &&& forall|j: int|
                    #![trigger order[j]]
                    0 <= j < order.len() && h.parent.contains_key(order[j]) ==> order.take(
                        j,
                    ).contains(h.parent[order[j]])
            }),
    {
        assert(self.hierarchies[p].1.one_parent_each());
        assert(self.hierarchies[p].1.orderly(self.next_id));
        self.hierarchies[p].1.order_is_up_to_date(self.next_id);
        self.hierarchies[p].1.order_lists_members_once();
    }

    /// A new dimension, and one with a member or a hierarchy more, is orderly
    /// while there are ids left.
    pub proof fn adding_keeps_orderly(self, hierarchy: Option<Seq<char>>, name: Seq<char>)
        requires
            self.orderly(),
            self.next_id < u32::MAX,
        ensures
            Self::fresh(name).orderly(),
            self.leaf_added(name).0.orderly(),
            self.aggregate_added(hierarchy, name).0.orderly(),
            forall|p: int|
                0 <= p < self.hierarchies.len() ==> (#[trigger] self.aggregate_made(
                    p,
                    name,
                )).orderly(),
            self.hierarchy_created(name).0.orderly(),
    {
        let next = self.next_id;
        assert(HierarchyModel::<N>::fresh(name).orderly(next));
        let leaf = self.leaf_made(name);
        assert forall|p: int| 0 <= p < leaf.hierarchies.len() implies (
        #[trigger] leaf.hierarchies[p]).1.orderly(leaf.next_id) by {
            assert(self.hierarchies[p].1.orderly(next));
            assert(!self.hierarchies[p].1.parent.contains_key(next));
            self.hierarchies[p].1.members_come_orderly(next, name, next);
        }
        assert forall|q: int| 0 <= q < self.hierarchies.len() implies (
        #[trigger] self.aggregate_made(q, name)).orderly() by {
            let made = self.aggregate_made(q, name);
            assert forall|p: int| 0 <= p < made.hierarchies.len() implies (
            #[trigger] made.hierarchies[p]).1.orderly(made.next_id) by {
                assert(self.hierarchies[p].1.orderly(next));
                self.hierarchies[p].1.members_come_orderly(next, name, next);
            }
        }
        let named = self.hierarchy_named(hierarchy);
        place_of_is_first(keys(self.hierarchies), lowercase(named));
        match (self.place(named), self.leaf(name)) {
            (Some(p), Some(id)) => {
                let promoted = self.promoted(p, name, id);
                assert forall|q: int| 0 <= q < promoted.hierarchies.len() implies (
                #[trigger] promoted.hierarchies[q]).1.orderly(promoted.next_id) by {
                    let h = self.hierarchies[q].1;
                    let original = if self.leaf_names.contains_key(id) {
                        self.leaf_names[id]
                    } else {
                        name
                    };
                    assert(self.hierarchies[q].1.orderly(next));
                    h.members_come_orderly(next, name, id);
                    h.without_alias(id).members_come_orderly(next, original, id);
                }
            },
            _ => {},
        }
        let after = self.aggregate_added(hierarchy, name).0;
        assert(after.orderly()) by {
            match self.place(named) {
                Some(p) => {
                    assert(self.aggregate_made(p, name).orderly());
                    if after.hierarchies == self.hierarchies && after.next_id == next {
                        assert forall|q: int| 0 <= q < after.hierarchies.len() implies (
                        #[trigger] after.hierarchies[q]).1.orderly(next) by {
                            assert(self.hierarchies[q].1.orderly(next));
                        }
                    }
                },
                None => {},
            }
        }
        let created = self.hierarchy_created(name).0;
        with_leaves_is_orderly(
            HierarchyModel::<N>::fresh(name),
            self.leaf_names,
            in_turn(self.leaves()),
            next,
        );
        with_leaves(
            HierarchyModel::<N>::fresh(name),
            self.leaf_names,
            in_turn(self.leaves()),
        ).order_is_up_to_date(next);
        assert forall|p: int| 0 <= p < created.hierarchies.len() implies (
        #[trigger] created.hierarchies[p]).1.orderly(next) by {
            if p < self.hierarchies.len() {
                assert(self.hierarchies[p].1.orderly(next));
            }
        }
    }

    /// Another default member, or display orders brought up to date, keep a
    /// dimension orderly.
    pub proof fn upkeep_keeps_orderly(self, hierarchy: Option<Seq<char>>, name: Seq<char>)
        requires
            self.orderly(),
        ensures
            self.default_set(name).0.orderly(),
            self.ensured_in(hierarchy).orderly(),
            self.ensured().orderly(),
            self.rebuilt().orderly(),
    {
        let next = self.next_id;
        place_of_is_first(keys(self.hierarchies), lowercase(self.hierarchy_named(hierarchy)));
        assert forall|p: int| 0 <= p < self.hierarchies.len() implies (
        #[trigger] self.hierarchies[p]).1.ensured().orderly(next)
            && self.hierarchies[p].1.rebuilt().orderly(next) by {
            self.hierarchies[p].1.order_is_up_to_date(next);
        }
        let one = self.ensured_in(hierarchy);
        assert forall|p: int| 0 <= p < one.hierarchies.len() implies (
        #[trigger] one.hierarchies[p]).1.orderly(next) by {
            assert(self.hierarchies[p].1.orderly(next));
            assert(self.hierarchies[p].1.ensured().orderly(next));
        }
        let all = self.ensured();
        assert forall|p: int| 0 <= p < all.hierarchies.len() implies (
        #[trigger] all.hierarchies[p]).1.orderly(next) by {
            assert(self.hierarchies[p].1.ensured().orderly(next));
        }
        let rebuilt = self.rebuilt();
        assert forall|p: int| 0 <= p < rebuilt.hierarchies.len() implies (
        #[trigger] rebuilt.hierarchies[p]).1.orderly(next) by {
            assert(self.hierarchies[p].1.rebuilt().orderly(next));
        }
        let set = self.default_set(name).0;
        assert forall|p: int| 0 <= p < set.hierarchies.len() implies (
        #[trigger] set.hierarchies[p]).1.orderly(next) by {
            assert(self.hierarchies[p].1.orderly(next));
        }
    }

    /// One hierarchy changed, and still orderly.
    proof fn one_order_changed(self, p: int, after: Self)
        requires
            self.orderly(),
            0 <= p < self.hierarchies.len(),
            after.hierarchies.len() == self.hierarchies.len(),
            after.next_id == self.next_id,
            after.hierarchies[p].1.orderly(self.next_id),
            forall|q: int|
                0 <= q < self.hierarchies.len() && q != p ==> #[trigger] after.hierarchies[q]
                    == self.hierarchies[q],
        ensures
            after.orderly(),
    {
        assert forall|q: int| 0 <= q < after.hierarchies.len() implies (
        #[trigger] after.hierarchies[q]).1.orderly(after.next_id) by {
            if q != p {
                assert(self.hierarchies[q].1.orderly(self.next_id));
            }
        }
    }

    /// Putting a child under a parent keeps a sound dimension orderly while there
    /// are ids left for both.
    pub proof fn linking_keeps_orderly(
        self,
        hierarchy: Option<Seq<char>>,
        parent: Seq<char>,
        child: Seq<char>,
        weight: N,
    )
        requires
            self.sound(),
            self.orderly(),
            self.next_id < u32::MAX - 1,
        ensures
            self.component_added(hierarchy, parent, child, weight).0.orderly(),
    {
        let named = self.hierarchy_named(hierarchy);
        place_of_is_first(keys(self.hierarchies), lowercase(named));
        match self.place(named) {
            None => {},
            Some(p) => {
                self.adding_keeps_orderly(Some(named), parent);
                self.adding_an_aggregate_keeps_sound(Some(named), parent);
                match self.aggregate_added(Some(named), parent) {
                    (with_parent, Err(_)) => {},
                    (with_parent, Ok(parent_id)) => {
                        with_parent.adding_keeps_orderly(None, child);
                        assert(with_parent.aggregate_made(p, child).orderly());
                        let h = with_parent.hierarchies[p].1;
                        assert(with_parent.hierarchies[p].1.sound_over(
                            with_parent.leaf_ids,
                            with_parent.leaf_names,
                            with_parent.next_id,
                        ));
                        lookup_found(h.members, lowercase(child));
                        if with_parent.leaf(child) is Some {
                            with_parent.a_leaf_has_one_id(child, p);
                        }
                        let (with_child, child_id) = with_parent.child_found(p, child);
                        assert(child_id < with_child.next_id);
                        assert(with_child.hierarchies[p].1.orderly(with_child.next_id));
                        with_child.hierarchies[p].1.links_are_orderly(
                            with_child.next_id,
                            parent_id,
                            child_id,
                            weight,
                        );
                        with_child.one_order_changed(
                            p,
                            with_child.component_linked(p, parent_id, child_id, weight).0,
                        );
                    },
                }
            },
        }
    }

    /// Taking a child from under its parent keeps a dimension orderly.
    pub proof fn unlinking_keeps_orderly(
        self,
        hierarchy: Option<Seq<char>>,
        parent: Seq<char>,
        child: Seq<char>,
    )
        requires
            self.orderly(),
        ensures
            self.component_removed(hierarchy, parent, child).0.orderly(),
    {
        let named = self.hierarchy_named(hierarchy);
        place_of_is_first(keys(self.hierarchies), lowercase(named));
        if self.component_removed(hierarchy, parent, child).1 is Ok {
            let p = self.place(named)->0;
            let h = self.hierarchies[p].1;
            assert(self.hierarchies[p].1.orderly(self.next_id));
            h.links_are_orderly(
                self.next_id,
                h.id_of(parent)->0,
                h.id_of(child)->0,
                N::one_spec(),
            );
            self.one_order_changed(p, self.component_removed(hierarchy, parent, child).0);
        }
    }

    /// Putting a member elsewhere among its siblings keeps a dimension orderly.
    pub proof fn reordering_keeps_orderly(
        self,
        hierarchy: Option<Seq<char>>,
        name: Seq<char>,
        reference: Seq<char>,
    )
        requires
            self.orderly(),
        ensures
            self.moved_before(hierarchy, name, reference).0.orderly(),
            self.moved_to_front(hierarchy, name).0.orderly(),
    {
        let named = self.hierarchy_named(hierarchy);
        place_of_is_first(keys(self.hierarchies), lowercase(named));
        match self.place(named) {
            None => {},
            Some(p) => {
                let h = self.hierarchies[p].1;
                assert(self.hierarchies[p].1.orderly(self.next_id));
                match h.id_of(name) {
                    None => {},
                    Some(id) => {
                        h.moves_are_orderly(self.next_id, id, id);
                        self.one_order_changed(p, self.moved_to_front(hierarchy, name).0);
                        match h.id_of(reference) {
                            None => {},
                            Some(other) => {
                                h.moves_are_orderly(self.next_id, id, other);
                                if h.siblings(id, other) {
                                    self.one_order_changed(
                                        p,
                                        self.moved_before(hierarchy, name, reference).0,
                                    );
                                }
                            },
                        }
                    },
                }
            },
        }
    }

    /// Deleting a member keeps a dimension orderly.
    pub proof fn deleting_keeps_orderly(self, name: Seq<char>)
        requires
            self.orderly(),
        ensures
            self.member_deleted(name).0.orderly(),
    {
        let (rest, first) = self.leaf_left(name);
        let ids = first + ids_known(rest.hierarchies, name);
        match self.leaf(name) {
            Some(id) => {
                assert forall|p: int| 0 <= p < rest.hierarchies.len() implies (
                #[trigger] rest.hierarchies[p]).1.orderly(rest.next_id) by {
                    assert(self.hierarchies[p].1.orderly(self.next_id));
                    self.hierarchies[p].1.removal_is_orderly(self.next_id, id);
                }
            },
            None => {},
        }
        let left = rest.aggregates_deleted(name);
        assert forall|p: int| 0 <= p < left.hierarchies.len() implies (
        #[trigger] left.hierarchies[p]).1.orderly(left.next_id) by {
            assert(rest.hierarchies[p].1.orderly(rest.next_id));
            match rest.hierarchies[p].1.id_of(name) {
                Some(id) => {
                    rest.hierarchies[p].1.removal_is_orderly(rest.next_id, id);
                },
                None => {},
            }
        }
        left.defaults_spare_the_rest(ids);
    }
}

// ---------------------------------------------------------------------------
// Families
// ---------------------------------------------------------------------------

impl<N: Number> HierarchyModel<N> {
    /// Members are listed one family after the other, and in a family the parent comes
    /// first.
    pub proof fn families_are_listed_in_turn(
        self,
        ids: Seq<u32>,
        others: Seq<u32>,
        id: u32,
        depth: nat,
    )
        requires
            depth <= self.members.len() + 1,
        ensures
            self.flattened(ids + others, depth) == self.flattened(ids, depth) + self.flattened(
                others,
                depth,
            ),
            self.flattened(seq![id], depth).len() > 0,
            self.flattened(seq![id], depth)[0] == id,
            self.flattened(seq![id], depth).skip(1) == self.flattened(
                child_ids(self.kids(id)),
                depth + 1,
            ),
        decreases others.len(),
    {
        let both = ids + others;
        if others.len() > 0 {
            self.families_are_listed_in_turn(ids, others.drop_last(), id, depth);
            assert(both.drop_last() =~= ids + others.drop_last());
            assert(both.last() == others.last());
            assert(self.flattened(both, depth) =~= self.flattened(ids, depth) + self.flattened(
                others,
                depth,
            ));
        } else {
            assert(both =~= ids);
            assert(self.flattened(both, depth) =~= self.flattened(ids, depth) + self.flattened(
                others,
                depth,
            ));
        }
        let below = self.flattened(child_ids(self.kids(id)), depth + 1);
        let none = Seq::<u32>::empty();
        assert(seq![id].drop_last() =~= none);
        assert(self.flattened(none, depth) =~= none);
        assert(seq![id].last() == id);
        assert(self.flattened(seq![id], depth) =~= seq![id] + below);
        assert(self.flattened(seq![id], depth).skip(1) =~= below);
    }

    /// A member that is listed earlier ranks before one that is listed later, and before
    /// one that is not listed.
    pub proof fn ranks_follow_the_list(self, id: u32, other: u32)
        requires
            self.order.len() < usize::MAX,
            self.order.contains(id),
        ensures
            self.rank(id) < self.order.len(),
            self.order[self.rank(id) as int] == id,
            forall|i: int| 0 <= i < self.rank(id) ==> self.order[i] != id,
            !self.order.contains(other) ==> self.rank(id) < self.rank(other),
    {
        place_of_id_is_first(self.order, id);
        place_of_id_is_first(self.order, other);
    }
}

impl<N: Number> DimensionModel<N> {
    /// Members rank, count and are listed as the hierarchy that is named has them, or
    /// else as the default one has them.
    pub proof fn the_named_hierarchy_counts(
        self,
        name: Seq<char>,
        hierarchy: HierarchyModel<N>,
        member: Seq<char>,
        id: u32,
    )
        requires
            self.hierarchy(name) == Some(hierarchy),
        ensures
            self.rank(Some(name), id) == hierarchy.rank(id),
            self.id_in(Some(name), member) == hierarchy.id_of(member),
            self.shown_members(Some(name)).len() == hierarchy.ensured().order.len(),
            hierarchy.id_of(member) matches Some(known) ==> self.leaf_weights(Some(name), member)
                == hierarchy.leaf_weights(self.leaves(), known),
            hierarchy.id_of(member) is None ==> self.leaf_weights(Some(name), member) == Map::<
                u32,
                N,
            >::empty(),
            name == self.default_hierarchy ==> self.rank(None, id) == hierarchy.rank(id)
                && self.id_in(None, member) == hierarchy.id_of(member) && self.leaf_weights(
                None,
                member,
            ) == self.leaf_weights(Some(name), member),
    {
    }
}

} // verus!
