//! What holds of the rows of a slice.

use crate::cube::cube::CubeModel;
use crate::cube::node::CellModel;
use crate::cube::slice::{
    group_inserted, groups_sorted, place_of_group, ranks_in_order, GroupModel, SliceModel,
};
use crate::dimension::dimension::DimensionModel;
use crate::number::Number;
use crate::storage::name_map::lookup;
use vstd::prelude::*;

verus! {

/// Of two lists of ranks of one length, one comes first.
proof fn ranks_total(a: Seq<usize>, b: Seq<usize>)
    requires
        a.len() == b.len(),
    ensures
        ranks_in_order(a, b) || ranks_in_order(b, a),
    decreases a.len(),
{
    if a.len() > 0 && a[0] == b[0] {
        ranks_total(a.skip(1), b.skip(1));
    }
}

proof fn ranks_transitive(a: Seq<usize>, b: Seq<usize>, c: Seq<usize>)
    requires
        a.len() == b.len() == c.len(),
        ranks_in_order(a, b),
        ranks_in_order(b, c),
    ensures
        ranks_in_order(a, c),
    decreases a.len(),
{
    if a.len() > 0 && a[0] == b[0] && b[0] == c[0] {
        ranks_transitive(a.skip(1), b.skip(1), c.skip(1));
    }
}

/// The groups stand in the order of their ranks.
pub open spec fn in_rank_order<N>(
    groups: Seq<GroupModel<N>>,
    ranks: spec_fn(Seq<u32>) -> Seq<usize>,
) -> bool {
    forall|i: int, j: int|
        0 <= i < j < groups.len() ==> ranks_in_order(
            ranks((#[trigger] groups[i]).key),
            ranks((#[trigger] groups[j]).key),
        )
}

proof fn insertion_keeps_order<N>(
    groups: Seq<GroupModel<N>>,
    group: GroupModel<N>,
    ranks: spec_fn(Seq<u32>) -> Seq<usize>,
    width: nat,
)
    requires
        in_rank_order(groups, ranks),
        forall|key: Seq<u32>| (#[trigger] ranks(key)).len() == width,
    ensures
        in_rank_order(group_inserted(groups, group, ranks), ranks),
        group_inserted(groups, group, ranks).to_multiset() =~= groups.to_multiset().insert(group),
    decreases groups.len(),
{
    broadcast use vstd::seq_lib::group_to_multiset_ensures;

    let after = group_inserted(groups, group, ranks);
    if groups.len() == 0 || ranks_in_order(ranks(groups.last().key), ranks(group.key)) {
        assert forall|i: int, j: int| 0 <= i < j < after.len() implies ranks_in_order(
            ranks((#[trigger] after[i]).key),
            ranks((#[trigger] after[j]).key),
        ) by {
            if j < groups.len() {
                assert(after[i] == groups[i] && after[j] == groups[j]);
            } else if i < groups.len() - 1 {
                assert(after[i] == groups[i]);
                assert(ranks_in_order(
                    ranks(groups[i].key),
                    ranks(groups[groups.len() - 1].key),
                ));
                ranks_transitive(
                    ranks(groups[i].key),
                    ranks(groups.last().key),
                    ranks(group.key),
                );
            }
        }
    } else {
        let rest = groups.drop_last();
        let last = groups.last();
        assert forall|i: int, j: int| 0 <= i < j < rest.len() implies ranks_in_order(
            ranks((#[trigger] rest[i]).key),
            ranks((#[trigger] rest[j]).key),
        ) by {
            assert(rest[i] == groups[i] && rest[j] == groups[j]);
        }
        insertion_keeps_order(rest, group, ranks, width);
        let before = group_inserted(rest, group, ranks);
        ranks_total(ranks(last.key), ranks(group.key));
        assert(groups =~= rest.push(last));
        assert forall|i: int, j: int| 0 <= i < j < after.len() implies ranks_in_order(
            ranks((#[trigger] after[i]).key),
            ranks((#[trigger] after[j]).key),
        ) by {
            if j < before.len() {
                assert(after[i] == before[i] && after[j] == before[j]);
            } else {
                assert(before.to_multiset().count(before[i]) > 0) by {
                    assert(before.contains(before[i]));
                }
                if before[i] != group {
                    assert(rest.to_multiset().count(before[i]) > 0);
                    assert(rest.contains(before[i]));
                    let k = choose|k: int| 0 <= k < rest.len() && rest[k] == before[i];
                    assert(groups[k] == before[i]);
                    assert(ranks_in_order(
                        ranks(groups[k].key),
                        ranks(groups[groups.len() - 1].key),
                    ));
                }
            }
        }
    }
}

/// Sorting groups by their ranks puts them in order and neither adds nor drops
/// one.
pub proof fn sorting_groups_sorts<N>(
    groups: Seq<GroupModel<N>>,
    ranks: spec_fn(Seq<u32>) -> Seq<usize>,
    width: nat,
)
    requires
        forall|key: Seq<u32>| (#[trigger] ranks(key)).len() == width,
    ensures
        in_rank_order(groups_sorted(groups, ranks), ranks),
        groups_sorted(groups, ranks).to_multiset() =~= groups.to_multiset(),
    decreases groups.len(),
{
    broadcast use vstd::seq_lib::group_to_multiset_ensures;

    if groups.len() > 0 {
        sorting_groups_sorts(groups.drop_last(), ranks, width);
        insertion_keeps_order(
            groups_sorted(groups.drop_last(), ranks),
            groups.last(),
            ranks,
            width,
        );
        assert(groups =~= groups.drop_last().push(groups.last()));
    }
}

/// No two groups have the same key.
pub open spec fn keys_distinct<N>(groups: Seq<GroupModel<N>>) -> bool {
    forall|i: int, j: int|
        0 <= i < j < groups.len() ==> (#[trigger] groups[i]).key != (#[trigger] groups[j]).key
}

pub proof fn place_of_group_is_first<N>(groups: Seq<GroupModel<N>>, key: Seq<u32>)
    ensures
        match place_of_group(groups, key) {
            Some(i) => 0 <= i < groups.len() && groups[i].key == key,
            None => forall|i: int| 0 <= i < groups.len() ==> (#[trigger] groups[i]).key != key,
        },
    decreases groups.len(),
{
    if groups.len() > 0 {
        place_of_group_is_first(groups.drop_last(), key);
        assert forall|i: int| 0 <= i < groups.len() - 1 implies groups.drop_last()[i]
            == groups[i] by {}
        if place_of_group(groups, key) is None {
            assert forall|i: int| 0 <= i < groups.len() implies (#[trigger] groups[i]).key != key by {
                if i < groups.len() - 1 {
                    assert(groups.drop_last()[i].key != key);
                }
            }
        }
    }
}

impl<N: Number> CubeModel<N> {
    /// The cells of a slice are gathered into one group for each key.
    pub proof fn one_group_for_each_key(
        self,
        dims: Seq<DimensionModel<N>>,
        query: SliceModel,
        filters: Seq<Option<Map<u32, N>>>,
        cells: Seq<(Seq<u32>, CellModel<N>)>,
    )
        ensures
            keys_distinct(self.grouped(dims, query, filters, cells)),
        decreases cells.len(),
    {
        if cells.len() > 0 {
            let (coords, base) = cells.last();
            let count = self.dimensions.len() as int;
            let before = self.grouped(dims, query, filters, cells.drop_last());
            self.one_group_for_each_key(dims, query, filters, cells.drop_last());
            let key = self.row_key(query, coords);
            place_of_group_is_first(before, key);
            let after = self.grouped(dims, query, filters, cells);
            assert forall|i: int, j: int| 0 <= i < j < after.len() implies (
            #[trigger] after[i]).key != (#[trigger] after[j]).key by {
                assert(before[i].key == after[i].key);
                if j < before.len() {
                    assert(before[j].key == after[j].key);
                }
            }
        }
    }

    /// The last axis with a name is found by it.
    proof fn axis_is_found(self, query: SliceModel, slot: int, n: int)
        requires
            0 <= slot < n <= self.shown_axes(query).len(),
            forall|k: int|
                slot < k < n ==> self.dimension_names[(#[trigger] self.shown_axes(
                    query,
                )[k]) as int] != self.dimension_names[self.shown_axes(query)[slot] as int],
        ensures
            self.slot_named(
                query,
                self.dimension_names[self.shown_axes(query)[slot] as int],
                n,
            ) == Some(slot),
        decreases n,
    {
        if slot < n - 1 {
            assert(self.dimension_names[self.shown_axes(query)[n - 1] as int]
                != self.dimension_names[self.shown_axes(query)[slot] as int]);
            self.axis_is_found(query, slot, n - 1);
        }
    }

    /// A column that is named after a dimension shows the member that the cells of
    /// its row have in this dimension, wherever in the cube the dimension of the
    /// measures stands.
    pub proof fn a_column_shows_its_dimension(
        self,
        dims: Seq<DimensionModel<N>>,
        query: SliceModel,
        group: GroupModel<N>,
        coords: Seq<u32>,
        slot: int,
    )
        requires
            group.key == self.row_key(query, coords),
            0 <= slot < self.shown_axes(query).len(),
            forall|k: int|
                slot < k < self.shown_axes(query).len()
                    ==> self.dimension_names[(#[trigger] self.shown_axes(query)[k]) as int]
                    != self.dimension_names[self.shown_axes(query)[slot] as int],
        ensures
            ({
                let i = self.shown_axes(query)[slot] as int;
                self.column_text(dims, query, group, self.dimension_names[i]) == self.dim(
                    dims,
                    i,
                ).name_of(coords[i])
            }),
    {
        self.axis_is_found(query, slot, self.shown_axes(query).len() as int);
    }

    /// The rows of a slice come in the display order of their axes: by the
    /// first axis in which they differ.
    pub proof fn rows_come_in_display_order(
        self,
        dims: Seq<DimensionModel<N>>,
        query: SliceModel,
        groups: Seq<GroupModel<N>>,
    )
        ensures
            ({
                let ranks = |key: Seq<u32>| self.key_ranks(dims, query, key);
                &&& in_rank_order(groups_sorted(groups, ranks), ranks)
                &&& groups_sorted(groups, ranks).to_multiset() =~= groups.to_multiset()
            }),
    {
        let ranks = |key: Seq<u32>| self.key_ranks(dims, query, key);
        sorting_groups_sorts(groups, ranks, self.shown_axes(query).len());
    }
}

// ---------------------------------------------------------------------------
// Rows in order
// ---------------------------------------------------------------------------

/// Ranks in order differ first where the one is less.
proof fn the_first_difference_orders_ranks(a: Seq<usize>, b: Seq<usize>, slot: int)
    requires
        0 <= slot < a.len(),
        slot < b.len(),
        forall|t: int| 0 <= t < slot ==> a[t] == b[t],
    ensures
        ranks_in_order(a, b) ==> a[slot] <= b[slot],
        a[slot] < b[slot] ==> ranks_in_order(a, b),
    decreases slot,
{
    if slot > 0 {
        assert(a[0] == b[0]);
        assert forall|t: int| 0 <= t < slot - 1 implies a.skip(1)[t] == b.skip(1)[t] by {
            assert(a[t + 1] == b[t + 1]);
        }
        the_first_difference_orders_ranks(a.skip(1), b.skip(1), slot - 1);
    }
}

/// The groups of one rank, in their order.
pub open spec fn of_rank<N>(
    groups: Seq<GroupModel<N>>,
    ranks: spec_fn(Seq<u32>) -> Seq<usize>,
    rank: Seq<usize>,
) -> Seq<GroupModel<N>>
    decreases groups.len(),
{
    if groups.len() == 0 {
        groups
    } else if ranks(groups.last().key) == rank {
        of_rank(groups.drop_last(), ranks, rank).push(groups.last())
    } else {
        of_rank(groups.drop_last(), ranks, rank)
    }
}

proof fn same_ranks_are_in_order(a: Seq<usize>)
    ensures
        ranks_in_order(a, a),
    decreases a.len(),
{
    if a.len() > 0 {
        same_ranks_are_in_order(a.skip(1));
    }
}

proof fn insertion_goes_behind_its_rank<N>(
    groups: Seq<GroupModel<N>>,
    group: GroupModel<N>,
    ranks: spec_fn(Seq<u32>) -> Seq<usize>,
    rank: Seq<usize>,
)
    ensures
        of_rank(group_inserted(groups, group, ranks), ranks, rank) == of_rank(
            groups.push(group),
            ranks,
            rank,
        ),
    decreases groups.len(),
{
    let all = groups.push(group);
    assert(all.drop_last() =~= groups && all.last() == group);
    if groups.len() > 0 && !ranks_in_order(ranks(groups.last().key), ranks(group.key)) {
        let rest = groups.drop_last();
        let before = group_inserted(rest, group, ranks);
        insertion_goes_behind_its_rank(rest, group, ranks, rank);
        same_ranks_are_in_order(rank);
        let most = rest.push(group);
        let whole = before.push(groups.last());
        assert(most.drop_last() =~= rest && most.last() == group);
        assert(whole.drop_last() =~= before && whole.last() == groups.last());
        assert(group_inserted(groups, group, ranks) == whole);
        assert(of_rank(most, ranks, rank) == if ranks(group.key) == rank {
            of_rank(rest, ranks, rank).push(group)
        } else {
            of_rank(rest, ranks, rank)
        });
        assert(of_rank(all, ranks, rank) == if ranks(group.key) == rank {
            of_rank(groups, ranks, rank).push(group)
        } else {
            of_rank(groups, ranks, rank)
        });
    }
}

/// Groups that rank the same stay in the order in which they were.
pub proof fn equal_ranks_stay_in_order<N>(
    groups: Seq<GroupModel<N>>,
    ranks: spec_fn(Seq<u32>) -> Seq<usize>,
    rank: Seq<usize>,
)
    ensures
        of_rank(groups_sorted(groups, ranks), ranks, rank) == of_rank(groups, ranks, rank),
    decreases groups.len(),
{
    if groups.len() > 0 {
        let sorted = groups_sorted(groups.drop_last(), ranks);
        equal_ranks_stay_in_order(groups.drop_last(), ranks, rank);
        insertion_goes_behind_its_rank(sorted, groups.last(), ranks, rank);
        assert(sorted.push(groups.last()).drop_last() =~= sorted);
    }
}

impl<N: Number> CubeModel<N> {
    /// Of two rows the earlier has, on the first axis on which their members rank
    /// differently, the member that is shown first in the hierarchy of that axis.
    pub proof fn earlier_rows_have_earlier_members(
        self,
        dims: Seq<DimensionModel<N>>,
        query: SliceModel,
        groups: Seq<GroupModel<N>>,
        i: int,
        j: int,
        slot: int,
    )
        requires
            ({
                let sorted = groups_sorted(
                    groups,
                    |key: Seq<u32>| self.key_ranks(dims, query, key),
                );
                let shown = self.shown_axes(query);
                &&& 0 <= i < j < sorted.len()
                &&& 0 <= slot < shown.len()
                &&& slot < sorted[i].key.len()
                &&& slot < sorted[j].key.len()
                &&& forall|t: int|
                    0 <= t < slot ==> #[trigger] self.axis_rank(dims, query, sorted[i].key, t)
                        == self.axis_rank(dims, query, sorted[j].key, t)
            }),
        ensures
            ({
                let sorted = groups_sorted(
                    groups,
                    |key: Seq<u32>| self.key_ranks(dims, query, key),
                );
                self.axis_rank(dims, query, sorted[i].key, slot) <= self.axis_rank(
                    dims,
                    query,
                    sorted[j].key,
                    slot,
                )
            }),
    {
        let ranks = |key: Seq<u32>| self.key_ranks(dims, query, key);
        let sorted = groups_sorted(groups, ranks);
        self.rows_come_in_display_order(dims, query, groups);
        let (a, b) = (sorted[i], sorted[j]);
        let (x, y) = (ranks(a.key), ranks(b.key));
        assert(ranks_in_order(x, y));
        assert forall|t: int| 0 <= t < slot implies #[trigger] x[t] == y[t] by {
            assert(self.axis_rank(dims, query, a.key, t) == self.axis_rank(dims, query, b.key, t));
        }
        the_first_difference_orders_ranks(x, y, slot);
    }

    /// The rank of the member of a row on one of the axes that are shown, in the
    /// hierarchy that was asked for or else in the default one.
    pub open spec fn axis_rank(
        self,
        dims: Seq<DimensionModel<N>>,
        query: SliceModel,
        key: Seq<u32>,
        slot: int,
    ) -> usize {
        let axis = self.shown_axes(query)[slot] as int;
        self.dim(dims, axis).rank(
            lookup(query.axis_hierarchies, self.dimension_names[axis]),
            key[slot],
        )
    }
}

} // verus!
