//! What the numbers of a slice add up to.

use crate::cube::cube::{crossed, product, split, CubeModel};
use crate::cube::node::CellModel;
use crate::cube::slice::{
    combined, filter_weights, gathered, groups_sorted, ids_let_through, place_of_group, GroupModel,
    ResultModel, SliceModel,
};
use crate::cube::slice_laws::{keys_distinct, place_of_group_is_first};
use crate::cube::splash_laws::{counted_all, exact_arithmetic, sum_is_counted};
use crate::dimension::dimension::DimensionModel;
use crate::number::Number;
use crate::storage::id_map::{in_turn, in_turn_lists, pairs_of};
use crate::storage::name_map::{keys, lookup, lookup_after_put, lookup_finds};
use crate::storage::sparse_store::{admits, before, is_listing, listing, listing_is_unique};
use crate::text::place_of_is_first;
use vstd::prelude::*;

verus! {

// ---------------------------------------------------------------------------
// Weights
// ---------------------------------------------------------------------------

/// The product of the weights by which the filters of the first `n` dimensions
/// reach the coordinates. A dimension without a filter counts by one.
pub open spec fn weight_product<N: Number>(
    filters: Seq<Option<Map<u32, N>>>,
    coords: Seq<u32>,
    n: int,
) -> N
    decreases n,
{
    if n <= 0 {
        N::one_spec()
    } else {
        match filters[n - 1] {
            Some(weights) => weight_product(filters, coords, n - 1).times_spec(
                weights[coords[n - 1]],
            ),
            None => weight_product(filters, coords, n - 1),
        }
    }
}

impl<N: Number> CubeModel<N> {
    /// In a cube that sums up, a number counts in its row by the product of the
    /// weights of its members in all filtered dimensions.
    pub proof fn a_number_counts_by_all_its_weights(
        self,
        filters: Seq<Option<Map<u32, N>>>,
        coords: Seq<u32>,
        number: N,
        n: int,
    )
        requires
            exact_arithmetic::<N>(),
            self.is_aggregating,
            0 <= n <= filters.len(),
            admits(ids_let_through(filters), coords),
        ensures
            self.weighted(filters, coords, CellModel::Numeric(number), n) == CellModel::Numeric(
                number.times_spec(weight_product(filters, coords, n)),
            ),
        decreases n,
    {
        if n > 0 {
            self.a_number_counts_by_all_its_weights(filters, coords, number, n - 1);
            assert(ids_let_through(filters)[n - 1] matches Some(ids) ==> ids.contains(
                coords[n - 1],
            ));
        }
    }

    /// A text is shown as it is, and so is every cell of a cube that does not sum
    /// up.
    pub proof fn what_is_not_summed_up_is_not_weighed(
        self,
        filters: Seq<Option<Map<u32, N>>>,
        coords: Seq<u32>,
        cell: CellModel<N>,
        n: int,
    )
        requires
            !self.is_aggregating || cell is Text,
        ensures
            self.weighted(filters, coords, cell, n) == cell,
        decreases n,
    {
        if n > 0 {
            self.what_is_not_summed_up_is_not_weighed(filters, coords, cell, n - 1);
        }
    }
}

// ---------------------------------------------------------------------------
// Rows
// ---------------------------------------------------------------------------

/// What the row of a key has under a measure.
pub open spec fn measure_at<N>(
    groups: Seq<GroupModel<N>>,
    key: Seq<u32>,
    name: Seq<char>,
) -> Option<CellModel<N>> {
    match place_of_group(groups, key) {
        Some(i) => lookup(groups[i].measures, name),
        None => None,
    }
}

/// A cell more changes its own row and measure, and no other.
pub proof fn gathered_measures<N: Number>(
    groups: Seq<GroupModel<N>>,
    key: Seq<u32>,
    name: Seq<char>,
    value: CellModel<N>,
    other_key: Seq<u32>,
    other_name: Seq<char>,
)
    requires
        keys_distinct(groups),
    ensures
        measure_at(gathered(groups, key, name, value), other_key, other_name) == (if other_key
            == key && other_name == name {
            Some(
                combined(
                    match measure_at(groups, key, name) {
                        Some(cell) => cell,
                        None => CellModel::Numeric(N::zero_spec()),
                    },
                    value,
                ),
            )
        } else {
            measure_at(groups, other_key, other_name)
        }),
{
    let after = gathered(groups, key, name, value);
    place_of_group_is_first(groups, key);
    place_of_group_is_first(groups, other_key);
    place_of_group_is_first(after, other_key);
    let none = Seq::<(Seq<char>, CellModel<N>)>::empty();
    place_of_is_first(keys(none), name);
    place_of_is_first(keys(none), other_name);
    match place_of_group(groups, key) {
        Some(i) => {
            let was = groups[i].measures;
            let existing = match lookup(was, name) {
                Some(cell) => cell,
                None => CellModel::Numeric(N::zero_spec()),
            };
            lookup_after_put(was, name, combined(existing, value), other_name);
            match place_of_group(after, other_key) {
                Some(j) => {
                    assert(groups[j].key == other_key);
                    let k = place_of_group(groups, other_key)->0;
                    if k < j {
                        assert(groups[k].key != groups[j].key);
                    }
                    if j < k {
                        assert(groups[j].key != groups[k].key);
                    }
                },
                None => {
                    if place_of_group(groups, other_key) is Some {
                        let k = place_of_group(groups, other_key)->0;
                        assert(after[k].key == other_key);
                    }
                },
            }
        },
        None => {
            lookup_after_put(
                none,
                name,
                combined(CellModel::Numeric(N::zero_spec()), value),
                other_name,
            );
            assert(lookup(none, name) is None);
            assert(lookup(none, other_name) is None);
            match place_of_group(after, other_key) {
                Some(j) => {
                    if j < groups.len() {
                        assert(groups[j].key == other_key);
                        let k = place_of_group(groups, other_key)->0;
                        if k < j {
                            assert(groups[k].key != groups[j].key);
                        }
                        if j < k {
                            assert(groups[j].key != groups[k].key);
                        }
                    } else {
                        assert(after[j].key == key);
                        if place_of_group(groups, other_key) is Some {
                            assert(groups[place_of_group(groups, other_key)->0].key == key);
                        }
                    }
                },
                None => {
                    if place_of_group(groups, other_key) is Some {
                        let k = place_of_group(groups, other_key)->0;
                        assert(after[k].key == other_key);
                    }
                    assert(after[groups.len() as int].key == key);
                },
            }
        },
    }
}

impl<N: Number> CubeModel<N> {
    /// The cell is shown in the row of the key, under the measure.
    pub open spec fn belongs(
        self,
        dims: Seq<DimensionModel<N>>,
        query: SliceModel,
        coords: Seq<u32>,
        key: Seq<u32>,
        name: Seq<char>,
    ) -> bool {
        self.row_key(query, coords) == key && self.measure_name(dims, query, coords) == name
    }

    /// The sum of the cells of one row under one measure, each by the weights of its
    /// members; none where the row has no such cell.
    pub open spec fn row_total(
        self,
        dims: Seq<DimensionModel<N>>,
        query: SliceModel,
        filters: Seq<Option<Map<u32, N>>>,
        cells: Seq<(Seq<u32>, CellModel<N>)>,
        key: Seq<u32>,
        name: Seq<char>,
    ) -> Option<N>
        decreases cells.len(),
    {
        if cells.len() == 0 {
            None
        } else {
            let before = self.row_total(dims, query, filters, cells.drop_last(), key, name);
            let (coords, cell) = cells.last();
            if self.belongs(dims, query, coords, key, name) {
                Some(
                    (match before {
                        Some(sum) => sum,
                        None => N::zero_spec(),
                    }).plus_spec(
                        cell.amount().times_spec(
                            weight_product(filters, coords, filters.len() as int),
                        ),
                    ),
                )
            } else {
                before
            }
        }
    }

    /// In a cube that sums up, each row of a slice shows under each measure the sum of
    /// its cells, every number by the product of the weights of its members.
    pub proof fn rows_add_up(
        self,
        dims: Seq<DimensionModel<N>>,
        query: SliceModel,
        filters: Seq<Option<Map<u32, N>>>,
        cells: Seq<(Seq<u32>, CellModel<N>)>,
        key: Seq<u32>,
        name: Seq<char>,
    )
        requires
            exact_arithmetic::<N>(),
            self.is_aggregating,
            filters.len() == self.dimensions.len(),
            forall|i: int|
                0 <= i < cells.len() ==> (#[trigger] cells[i]).1 is Numeric && admits(
                    ids_let_through(filters),
                    cells[i].0,
                ),
        ensures
            measure_at(self.grouped(dims, query, filters, cells), key, name) == (match self.row_total(
                dims,
                query,
                filters,
                cells,
                key,
                name,
            ) {
                Some(sum) => Some(CellModel::Numeric(sum)),
                None => None,
            }),
        decreases cells.len(),
    {
        if cells.len() > 0 {
            let rest = cells.drop_last();
            assert forall|i: int| 0 <= i < rest.len() implies (#[trigger] rest[i]).1 is Numeric
                && admits(ids_let_through(filters), rest[i].0) by {
                assert(rest[i] == cells[i]);
            }
            self.rows_add_up(dims, query, filters, rest, key, name);
            let (coords, cell) = cells[cells.len() - 1];
            let count = self.dimensions.len() as int;
            self.a_number_counts_by_all_its_weights(filters, coords, cell->Numeric_0, count);
            self.one_group_for_each_key(dims, query, filters, rest);
            gathered_measures(
                self.grouped(dims, query, filters, rest),
                self.row_key(query, coords),
                self.measure_name(dims, query, coords),
                self.weighted(filters, coords, cell, count),
                key,
                name,
            );
        }
    }
}

// ---------------------------------------------------------------------------
// Crossings in order
// ---------------------------------------------------------------------------

/// One leaf more leaves the order of coordinates of one length as it is.
proof fn before_pushed(a: Seq<u32>, b: Seq<u32>, x: u32, y: u32)
    requires
        a.len() == b.len(),
        before(a, b) || (a == b && x < y),
    ensures
        before(a.push(x), b.push(y)),
    decreases a.len(),
{
    let (ax, by) = (a.push(x), b.push(y));
    if a.len() > 0 {
        assert(ax.skip(1) =~= a.skip(1).push(x));
        assert(by.skip(1) =~= b.skip(1).push(y));
        if a[0] == b[0] {
            before_pushed(a.skip(1), b.skip(1), x, y);
        }
    }
}

/// The parts are at coordinates of length `n`, in order.
pub open spec fn parts_in_order<N>(parts: Seq<(Seq<u32>, N)>, n: nat) -> bool {
    &&& forall|i: int| 0 <= i < parts.len() ==> (#[trigger] parts[i]).0.len() == n
    &&& forall|i: int, j: int|
        0 <= i < j < parts.len() ==> before((#[trigger] parts[i]).0, (#[trigger] parts[j]).0)
}

/// The crossing of a part with a leaf.
spec fn crossing<N: Number>(part: (Seq<u32>, N), leaf: (u32, N)) -> (Seq<u32>, N) {
    (part.0.push(leaf.0), part.1.times_spec(leaf.1))
}

/// Each crossing is of a part with a leaf, each part is crossed with each leaf, and
/// the crossings of what is in order are in order.
proof fn crossings<N: Number>(parts: Seq<(Seq<u32>, N)>, leaves: Seq<(u32, N)>, n: nat)
    ensures
        forall|i: int|
            0 <= i < crossed(parts, leaves).len() ==> exists|a: int, b: int|
                0 <= a < parts.len() && 0 <= b < leaves.len() && #[trigger] crossed(
                    parts,
                    leaves,
                )[i] == #[trigger] crossing(parts[a], leaves[b]),
        forall|a: int, b: int|
            0 <= a < parts.len() && 0 <= b < leaves.len() ==> crossed(parts, leaves).contains(
                #[trigger] crossing(parts[a], leaves[b]),
            ),
        parts_in_order(parts, n) && (forall|i: int, j: int|
            0 <= i < j < leaves.len() ==> (#[trigger] leaves[i]).0 < (#[trigger] leaves[j]).0)
            ==> parts_in_order(crossed(parts, leaves), n + 1),
    decreases parts.len(),
{
    let all = crossed(parts, leaves);
    if parts.len() > 0 {
        let rest = parts.drop_last();
        let last = parts.len() - 1;
        crossings(rest, leaves, n);
        let first = crossed(rest, leaves);
        assert forall|i: int| 0 <= i < all.len() implies exists|a: int, b: int|
            0 <= a < parts.len() && 0 <= b < leaves.len() && #[trigger] all[i]
                == #[trigger] crossing(parts[a], leaves[b]) by {
            if i < first.len() {
                let (a, b) = choose|a: int, b: int|
                    0 <= a < rest.len() && 0 <= b < leaves.len() && first[i]
                        == #[trigger] crossing(rest[a], leaves[b]);
                assert(all[i] == crossing(parts[a], leaves[b]));
            } else {
                assert(all[i] == crossing(parts[last], leaves[i - first.len()]));
            }
        }
        assert forall|a: int, b: int| 0 <= a < parts.len() && 0 <= b < leaves.len() implies all.contains(
            #[trigger] crossing(parts[a], leaves[b]),
        ) by {
            if a < last {
                assert(first.contains(crossing(rest[a], leaves[b])));
                let i = choose|i: int|
                    0 <= i < first.len() && first[i] == crossing(rest[a], leaves[b]);
                assert(all[i] == crossing(parts[a], leaves[b]));
            } else {
                assert(all[first.len() + b] == crossing(parts[a], leaves[b]));
            }
        }
        if parts_in_order(parts, n) && (forall|i: int, j: int|
            0 <= i < j < leaves.len() ==> (#[trigger] leaves[i]).0 < (#[trigger] leaves[j]).0) {
            assert forall|i: int| 0 <= i < rest.len() implies (#[trigger] rest[i]).0.len() == n by {
                assert(parts[i].0.len() == n);
            }
            assert forall|i: int, j: int| 0 <= i < j < rest.len() implies before(
                (#[trigger] rest[i]).0,
                (#[trigger] rest[j]).0,
            ) by {
                assert(before(parts[i].0, parts[j].0));
            }
            assert(parts[last].0.len() == n);
            assert forall|i: int| 0 <= i < all.len() implies (#[trigger] all[i]).0.len() == n + 1 by {
                let (a, b) = choose|a: int, b: int|
                    0 <= a < parts.len() && 0 <= b < leaves.len() && all[i]
                        == #[trigger] crossing(parts[a], leaves[b]);
                assert(parts[a].0.len() == n);
            }
            assert forall|i: int, j: int| 0 <= i < j < all.len() implies before(
                (#[trigger] all[i]).0,
                (#[trigger] all[j]).0,
            ) by {
                if j < first.len() {
                    assert(before(first[i].0, first[j].0));
                } else {
                    let b = j - first.len();
                    assert(all[j] == crossing(parts[last], leaves[b]));
                    if i < first.len() {
                        let (a, c) = choose|a: int, c: int|
                            0 <= a < rest.len() && 0 <= c < leaves.len() && first[i]
                                == #[trigger] crossing(rest[a], leaves[c]);
                        assert(before(parts[a].0, parts[last].0));
                        assert(parts[a].0.len() == n);
                        before_pushed(parts[a].0, parts[last].0, leaves[c].0, leaves[b].0);
                    } else {
                        let a = i - first.len();
                        assert(all[i] == crossing(parts[last], leaves[a]));
                        assert(leaves[a].0 < leaves[b].0);
                        before_pushed(parts[last].0, parts[last].0, leaves[a].0, leaves[b].0);
                    }
                }
            }
        }
    }
}

/// The leaves of each dimension with their weights.
pub open spec fn lists_by<N: Number>(weights: Seq<Map<u32, N>>) -> Seq<Seq<(u32, N)>> {
    Seq::new(weights.len(), |i: int| pairs_of(weights[i]))
}

/// A filter for each dimension.
pub open spec fn filters_by<N: Number>(weights: Seq<Map<u32, N>>) -> Seq<Option<Map<u32, N>>> {
    Seq::new(weights.len(), |i: int| Some(weights[i]))
}

/// The crossings are at the coordinates that the filters let through, in order, each
/// with the product of the weights there.
pub proof fn crossings_are_let_through<N: Number>(weights: Seq<Map<u32, N>>, n: int)
    requires
        0 <= n <= weights.len(),
    ensures
        ({
            let parts = product(lists_by(weights.take(n)));
            &&& parts_in_order(parts, n as nat)
            &&& forall|i: int|
                0 <= i < parts.len() ==> admits(
                    ids_let_through(filters_by(weights.take(n))),
                    (#[trigger] parts[i]).0,
                ) && parts[i].1 == weight_product(filters_by(weights), parts[i].0, n)
            &&& forall|path: Seq<u32>| #[trigger]
                admits(ids_let_through(filters_by(weights.take(n))), path) ==> exists|i: int|
                    0 <= i < parts.len() && (#[trigger] parts[i]).0 == path
        }),
    decreases n,
{
    let parts = product(lists_by(weights.take(n)));
    let allowed = ids_let_through(filters_by(weights.take(n)));
    let filters = filters_by(weights);
    if n == 0 {
        assert(lists_by(weights.take(n)) =~= Seq::<Seq<(u32, N)>>::empty());
        assert(parts =~= seq![(Seq::<u32>::empty(), N::one_spec())]);
        assert forall|path: Seq<u32>| #[trigger] admits(allowed, path) implies exists|i: int|
            0 <= i < parts.len() && (#[trigger] parts[i]).0 == path by {
            assert(path =~= Seq::<u32>::empty());
            assert(parts[0].0 == path);
        }
    } else {
        let m = n - 1;
        crossings_are_let_through(weights, m);
        let before_parts = product(lists_by(weights.take(m)));
        let was_allowed = ids_let_through(filters_by(weights.take(m)));
        let leaves = pairs_of(weights[m]);
        assert(lists_by(weights.take(n)).drop_last() =~= lists_by(weights.take(m)));
        assert(parts == crossed(before_parts, leaves));
        in_turn_lists(weights[m].dom());
        let ids = in_turn(weights[m].dom());
        assert forall|i: int, j: int| 0 <= i < j < leaves.len() implies (#[trigger] leaves[i]).0 < (
        #[trigger] leaves[j]).0 by {
            assert(ids[i] < ids[j]);
        }
        crossings(before_parts, leaves, m as nat);
        assert forall|i: int| 0 <= i < parts.len() implies admits(allowed, (#[trigger] parts[i]).0)
            && parts[i].1 == weight_product(filters, parts[i].0, n) by {
            let (a, b) = choose|a: int, b: int|
                0 <= a < before_parts.len() && 0 <= b < leaves.len() && parts[i]
                    == #[trigger] crossing(before_parts[a], leaves[b]);
            let path = parts[i].0;
            let was = before_parts[a].0;
            assert(admits(was_allowed, was));
            assert(ids.contains(ids[b]));
            assert(ids.to_set().contains(ids[b]));
            assert forall|k: int| 0 <= k < path.len() implies (#[trigger] allowed[k] matches Some(
                set,
            ) ==> set.contains(path[k])) by {
                if k < m {
                    assert(allowed[k] == was_allowed[k]);
                    assert(path[k] == was[k]);
                }
            }
            same_product(filters, was, path, m);
        }
        assert forall|path: Seq<u32>| #[trigger] admits(allowed, path) implies exists|i: int|
            0 <= i < parts.len() && (#[trigger] parts[i]).0 == path by {
            let was = path.take(m);
            assert forall|k: int| 0 <= k < was.len() implies (#[trigger] was_allowed[k] matches Some(
                set,
            ) ==> set.contains(was[k])) by {
                assert(allowed[k] == was_allowed[k]);
            }
            assert(admits(was_allowed, was));
            let a = choose|a: int| 0 <= a < before_parts.len() && (#[trigger] before_parts[a]).0 == was;
            assert(allowed[m] == Some(weights[m].dom()));
            assert(ids.to_set().contains(path[m]));
            let b = choose|b: int| 0 <= b < ids.len() && ids[b] == path[m];
            assert(parts.contains(crossing(before_parts[a], leaves[b])));
            let i = choose|i: int|
                0 <= i < parts.len() && parts[i] == crossing(before_parts[a], leaves[b]);
            assert(parts[i].0 =~= path);
        }
    }
}

/// The product goes by the first coordinates only.
proof fn same_product<N: Number>(
    filters: Seq<Option<Map<u32, N>>>,
    a: Seq<u32>,
    b: Seq<u32>,
    n: int,
)
    requires
        forall|k: int| 0 <= k < n ==> a[k] == b[k],
    ensures
        weight_product(filters, a, n) == weight_product(filters, b, n),
    decreases n,
{
    if n > 0 {
        same_product(filters, a, b, n - 1);
    }
}

/// The parts at which there is a cell, with the cells.
spec fn stored<N: Number>(
    cells: Map<Seq<u32>, CellModel<N>>,
    parts: Seq<(Seq<u32>, N)>,
) -> Seq<(Seq<u32>, CellModel<N>)>
    decreases parts.len(),
{
    if parts.len() == 0 {
        Seq::empty()
    } else if cells.contains_key(parts.last().0) {
        stored(cells, parts.drop_last()).push((parts.last().0, cells[parts.last().0]))
    } else {
        stored(cells, parts.drop_last())
    }
}

/// The entry is of the part at `a`.
spec fn is_of<N: Number>(
    cells: Map<Seq<u32>, CellModel<N>>,
    parts: Seq<(Seq<u32>, N)>,
    entry: (Seq<u32>, CellModel<N>),
    a: int,
) -> bool {
    0 <= a < parts.len() && entry.0 == parts[a].0 && cells.contains_key(entry.0) && cells[entry.0]
        == entry.1
}

/// The entry at `k` is at the path.
spec fn is_at<V>(list: Seq<(Seq<u32>, V)>, path: Seq<u32>, k: int) -> bool {
    0 <= k < list.len() && list[k].0 == path
}

/// What is stored is at a part.
proof fn stored_at_parts<N: Number>(
    cells: Map<Seq<u32>, CellModel<N>>,
    parts: Seq<(Seq<u32>, N)>,
    k: int,
)
    requires
        0 <= k < stored(cells, parts).len(),
    ensures
        exists|a: int| #[trigger] is_of(cells, parts, stored(cells, parts)[k], a),
    decreases parts.len(),
{
    if parts.len() > 0 {
        let rest = parts.drop_last();
        let few = stored(cells, rest);
        if k < few.len() {
            stored_at_parts(cells, rest, k);
            let a = choose|a: int| #[trigger] is_of(cells, rest, few[k], a);
            assert(is_of(cells, parts, stored(cells, parts)[k], a));
        } else {
            assert(is_of(cells, parts, stored(cells, parts)[k], parts.len() - 1));
        }
    }
}

/// A part with a cell is among what is stored.
proof fn parts_are_stored<N: Number>(
    cells: Map<Seq<u32>, CellModel<N>>,
    parts: Seq<(Seq<u32>, N)>,
    a: int,
)
    requires
        0 <= a < parts.len(),
        cells.contains_key(parts[a].0),
    ensures
        exists|k: int| #[trigger] is_at(stored(cells, parts), parts[a].0, k),
    decreases parts.len(),
{
    let rest = parts.drop_last();
    let all = stored(cells, parts);
    if a < rest.len() {
        parts_are_stored(cells, rest, a);
        let k = choose|k: int| #[trigger] is_at(stored(cells, rest), rest[a].0, k);
        assert(is_at(all, parts[a].0, k));
    } else {
        assert(is_at(all, parts[a].0, all.len() - 1));
    }
}

/// What is stored of parts in order is in order.
proof fn stored_in_order<N: Number>(
    cells: Map<Seq<u32>, CellModel<N>>,
    parts: Seq<(Seq<u32>, N)>,
    n: nat,
)
    requires
        parts_in_order(parts, n),
    ensures
        forall|i: int, j: int|
            0 <= i < j < stored(cells, parts).len() ==> before(
                #[trigger] stored(cells, parts)[i].0,
                #[trigger] stored(cells, parts)[j].0,
            ),
    decreases parts.len(),
{
    if parts.len() > 0 {
        let rest = parts.drop_last();
        let last = parts.len() - 1;
        let few = stored(cells, rest);
        let all = stored(cells, parts);
        assert forall|i: int| 0 <= i < rest.len() implies (#[trigger] rest[i]).0.len() == n by {
            assert(parts[i].0.len() == n);
        }
        assert forall|i: int, j: int| 0 <= i < j < rest.len() implies before(
            (#[trigger] rest[i]).0,
            (#[trigger] rest[j]).0,
        ) by {
            assert(before(parts[i].0, parts[j].0));
        }
        stored_in_order(cells, rest, n);
        assert forall|i: int, j: int| 0 <= i < j < all.len() implies before(
            #[trigger] all[i].0,
            #[trigger] all[j].0,
        ) by {
            assert(all[i] == few[i]);
            if j < few.len() {
                assert(all[j] == few[j]);
                assert(before(few[i].0, few[j].0));
            } else {
                stored_at_parts(cells, rest, i);
                let a = choose|a: int| #[trigger] is_of(cells, rest, few[i], a);
                assert(before(parts[a].0, parts[last].0));
            }
        }
    }
}

/// The cells that filters of all dimensions let through are those at the crossings.
proof fn stored_are_listed<N: Number>(
    cells: Map<Seq<u32>, CellModel<N>>,
    weights: Seq<Map<u32, N>>,
)
    ensures
        ({
            let wanted = |path: Seq<u32>| admits(ids_let_through(filters_by(weights)), path);
            let list = stored(cells, product(lists_by(weights)));
            is_listing(cells, wanted, list) && list == listing(cells, wanted)
        }),
{
    let wanted = |path: Seq<u32>| admits(ids_let_through(filters_by(weights)), path);
    let parts = product(lists_by(weights));
    let n = weights.len();
    assert(weights.take(n as int) =~= weights);
    crossings_are_let_through(weights, n as int);
    stored_in_order(cells, parts, n);
    let list = stored(cells, parts);
    assert forall|i: int| 0 <= i < list.len() implies wanted(#[trigger] list[i].0)
        && cells.contains_key(list[i].0) && cells[list[i].0] == list[i].1 by {
        stored_at_parts(cells, parts, i);
        let a = choose|a: int| #[trigger] is_of(cells, parts, list[i], a);
        assert(admits(ids_let_through(filters_by(weights)), parts[a].0));
    }
    assert forall|path: Seq<u32>| #[trigger] cells.contains_key(path) && wanted(path) implies exists|
        i: int,
    | 0 <= i < list.len() && #[trigger] list[i].0 == path by {
        assert(admits(ids_let_through(filters_by(weights)), path));
        let a = choose|a: int| 0 <= a < parts.len() && (#[trigger] parts[a]).0 == path;
        parts_are_stored(cells, parts, a);
        let k = choose|k: int| #[trigger] is_at(list, parts[a].0, k);
        assert(list[k].0 == path);
    }
    listing_is_unique(cells, wanted, list);
}

// ---------------------------------------------------------------------------
// One value
// ---------------------------------------------------------------------------

/// The query for the value at one member of each dimension.
pub open spec fn value_query(names: Seq<Seq<char>>, members: Seq<Seq<char>>) -> SliceModel {
    SliceModel {
        columns: seq!["value"@],
        filters: Seq::new(names.len(), |i: int| (names[i], seq![members[i]])),
        ..SliceModel::empty()
    }
}

impl<N: Number> CubeModel<N> {
    /// The leaves below each of the members, with their weights.
    pub open spec fn weights_below(self, dims: Seq<DimensionModel<N>>, members: Seq<Seq<char>>) -> Seq<
        Map<u32, N>,
    > {
        Seq::new(
            members.len(),
            |i: int| self.dim(dims, i).leaf_weights(split(members[i]).0, split(members[i]).1),
        )
    }

    /// The filters of a query for one value are the leaves below its members.
    proof fn value_filters(
        self,
        dims: Seq<DimensionModel<N>>,
        members: Seq<Seq<char>>,
        n: int,
    )
        requires
            self.is_aggregating,
            self.dimension_names.len() == members.len(),
            self.dimension_names.no_duplicates(),
            0 <= n <= members.len(),
            forall|i: int|
                0 <= i < members.len() ==> (#[trigger] self.resolutions(dims, members)[i]).len()
                    > 0,
        ensures
            self.slice_filters(dims, value_query(self.dimension_names, members), n) == Ok::<
                Seq<Option<Map<u32, N>>>,
                Seq<char>,
            >(filters_by(self.weights_below(dims, members).take(n))),
        decreases n,
    {
        let query = value_query(self.dimension_names, members);
        let weights = self.weights_below(dims, members);
        if n == 0 {
            assert(filters_by(weights.take(0)) =~= Seq::<Option<Map<u32, N>>>::empty());
        } else {
            let i = n - 1;
            self.value_filters(dims, members, i);
            assert forall|a: int, b: int| 0 <= a < b < query.filters.len() implies (
            #[trigger] query.filters[a]).0 != (#[trigger] query.filters[b]).0 by {
                assert(self.dimension_names[a] != self.dimension_names[b]);
            }
            lookup_finds(query.filters, i);
            assert(query.filters[i] == (self.dimension_names[i], seq![members[i]]));
            let values = seq![members[i]];
            assert(values.drop_last() =~= Seq::<Seq<char>>::empty());
            let none = Map::<u32, N>::empty();
            assert(filter_weights(self.dim(dims, i), true, values.drop_last()) == Ok::<
                Map<u32, N>,
                Seq<char>,
            >(none));
            assert(self.resolutions(dims, members)[i] == pairs_of(weights[i]));
            assert(none.union_prefer_right(weights[i]) =~= weights[i]);
            assert(filters_by(weights.take(n)) =~= filters_by(weights.take(i)).push(
                Some(weights[i]),
            ));
        }
    }

    /// All cells go into one row, under one measure, and add up there.
    proof fn one_row(
        self,
        dims: Seq<DimensionModel<N>>,
        query: SliceModel,
        weights: Seq<Map<u32, N>>,
        parts: Seq<(Seq<u32>, N)>,
        key: Seq<u32>,
        name: Seq<char>,
    )
        requires
            exact_arithmetic::<N>(),
            self.is_aggregating,
            weights.len() == self.dimensions.len(),
            forall|i: int|
                0 <= i < parts.len() ==> admits(
                    ids_let_through(filters_by(weights)),
                    (#[trigger] parts[i]).0,
                ) && parts[i].1 == weight_product(
                    filters_by(weights),
                    parts[i].0,
                    weights.len() as int,
                ) && self.belongs(dims, query, parts[i].0, key, name),
            forall|i: int|
                0 <= i < parts.len() && self.cells.contains_key((#[trigger] parts[i]).0)
                    ==> self.cells[parts[i].0] is Numeric,
        ensures
            ({
                let list = stored(self.cells, parts);
                let total = self.row_total(dims, query, filters_by(weights), list, key, name);
                &&& list.len() == 0 ==> counted_all(self.cells, parts) == N::zero_spec()
                &&& total == (if list.len() == 0 {
                    None
                } else {
                    Some(counted_all(self.cells, parts))
                })
            }),
        decreases parts.len(),
    {
        if parts.len() > 0 {
            let rest = parts.drop_last();
            assert forall|i: int| 0 <= i < rest.len() implies admits(
                ids_let_through(filters_by(weights)),
                (#[trigger] rest[i]).0,
            ) && rest[i].1 == weight_product(filters_by(weights), rest[i].0, weights.len() as int)
                && self.belongs(dims, query, rest[i].0, key, name) by {
                assert(rest[i] == parts[i]);
            }
            assert forall|i: int|
                0 <= i < rest.len() && self.cells.contains_key((#[trigger] rest[i]).0) implies
                self.cells[rest[i].0] is Numeric by {
                assert(rest[i] == parts[i]);
            }
            self.one_row(dims, query, weights, rest, key, name);
            let part = parts[parts.len() - 1];
            let list = stored(self.cells, parts);
            if self.cells.contains_key(part.0) {
                assert(list.drop_last() =~= stored(self.cells, rest));
            }
        }
    }
}

impl<N: Number> CubeModel<N> {
    /// Where one member of each dimension is asked for, the value shown is what the
    /// cells add up to at these members.
    ///
    /// There has to be a cell below them, and only numbers. Where the cube has a
    /// dimension of measures, its member has to be one measure: several are shown
    /// in rows of their own.
    pub proof fn one_value_is_the_sum(self, dims: Seq<DimensionModel<N>>, members: Seq<Seq<char>>)
        requires
            exact_arithmetic::<N>(),
            self.is_aggregating,
            self.fits(dims.len()),
            self.dimension_names.len() == members.len(),
            self.dimension_names.no_duplicates(),
            forall|i: int|
                0 <= i < members.len() ==> (#[trigger] self.resolutions(dims, members)[i]).len()
                    > 0,
            self.measure_place() matches Some(m) ==> self.resolutions(dims, members)[m].len() == 1,
            forall|path: Seq<u32>| #[trigger]
                self.cells.contains_key(path) && self.below(dims, members, path)
                    ==> self.cells[path] is Numeric,
            exists|path: Seq<u32>| #[trigger]
                self.cells.contains_key(path) && self.below(dims, members, path),
        ensures
            self.slice(dims, value_query(self.dimension_names, members)) == Ok::<
                ResultModel,
                Seq<char>,
            >(
                ResultModel {
                    headers: seq!["value"@],
                    rows: seq![seq![self.computed(dims, members).shown_spec()]],
                },
            ),
    {
        let query = value_query(self.dimension_names, members);
        let weights = self.weights_below(dims, members);
        let filters = filters_by(weights);
        let n = members.len() as int;
        assert(weights.take(n) =~= weights);
        self.value_filters(dims, members, n);
        let parts = product(lists_by(weights));
        assert(lists_by(weights) =~= self.resolutions(dims, members));
        crossings_are_let_through(weights, n);
        stored_are_listed(self.cells, weights);
        let list = stored(self.cells, parts);
        assert(self.shown_axes(query).len() == 0) by {
            self.no_axes(query, n);
        }
        let some = choose|path: Seq<u32>| #[trigger]
            self.cells.contains_key(path) && self.below(dims, members, path);
        assert(admits(ids_let_through(filters), some)) by {
            self.below_is_let_through(dims, members, some);
        }
        let first = choose|a: int| 0 <= a < parts.len() && (#[trigger] parts[a]).0 == some;
        parts_are_stored(self.cells, parts, first);
        let key = self.row_key(query, some);
        let name = "value"@;
        assert forall|i: int| 0 <= i < parts.len() implies self.belongs(
            dims,
            query,
            (#[trigger] parts[i]).0,
            key,
            name,
        ) && (self.cells.contains_key(parts[i].0) ==> self.cells[parts[i].0] is Numeric) by {
            let path = parts[i].0;
            assert(admits(ids_let_through(filters), path));
            self.below_is_let_through(dims, members, path);
            assert(self.below(dims, members, path));
            match self.measure_place() {
                Some(m) => {
                    place_of_is_first(self.dimension_names, self.measure_dimension->0);
                    let leaves = self.resolutions(dims, members)[m];
                    let ids = in_turn(weights[m].dom());
                    in_turn_lists(weights[m].dom());
                    assert(ids_let_through(filters)[m] == Some(weights[m].dom()));
                    assert(ids.to_set().contains(path[m]) && ids.to_set().contains(some[m]));
                    assert(ids.len() == 1);
                    assert(path[m] == some[m]);
                },
                None => {},
            }
            assert(self.row_key(query, path) =~= key);
        }
        self.one_row(dims, query, weights, parts, key, name);
        let groups = self.grouped(dims, query, filters, list);
        assert forall|i: int| 0 <= i < list.len() implies (#[trigger] list[i]).1 is Numeric && admits(
            ids_let_through(filters),
            list[i].0,
        ) && self.belongs(dims, query, list[i].0, key, name) by {
            stored_at_parts(self.cells, parts, i);
            let a = choose|a: int| #[trigger] is_of(self.cells, parts, list[i], a);
            assert(admits(ids_let_through(filters), parts[a].0));
        }
        self.rows_add_up(dims, query, filters, list, key, name);
        self.one_group_for_each_key(dims, query, filters, list);
        self.keys_of_cells(dims, query, filters, list, key);
        sum_is_counted(self.cells, lists_by(weights));
        let total = self.computed(dims, members);
        assert(measure_at(groups, key, name) == Some(CellModel::Numeric(total)));
        place_of_group_is_first(groups, key);
        let at = place_of_group(groups, key)->0;
        assert(groups.len() == 1) by {
            if groups.len() > 1 {
                assert(groups[0].key != groups[1].key);
            }
        }
        let ranks = |key: Seq<u32>| self.key_ranks(dims, query, key);
        assert(groups.drop_last() =~= Seq::<GroupModel<N>>::empty());
        assert(groups_sorted(groups.drop_last(), ranks) == groups.drop_last());
        assert(groups_sorted(groups, ranks) =~= groups);
        let row = self.row(dims, query, groups[0]);
        assert(query.columns[0] == name);
        place_of_is_first(keys(query.column_dims), name);
        assert(row =~= seq![total.shown_spec()]);
        let wanted = |path: Seq<u32>| admits(ids_let_through(filters), path);
        let result = self.sliced(dims, query, filters);
        assert(listing(self.cells, wanted) == list);
        assert(result.rows =~= seq![seq![total.shown_spec()]]);
        assert(result.headers =~= seq!["value"@]);
    }

    /// The coordinates are of leaves below the members.
    pub open spec fn below(
        self,
        dims: Seq<DimensionModel<N>>,
        members: Seq<Seq<char>>,
        path: Seq<u32>,
    ) -> bool {
        path.len() == members.len() && forall|i: int|
            0 <= i < path.len() ==> #[trigger] self.dim(dims, i).leaf_weights(
                split(members[i]).0,
                split(members[i]).1,
            ).contains_key(path[i])
    }

    pub proof fn below_is_let_through(
        self,
        dims: Seq<DimensionModel<N>>,
        members: Seq<Seq<char>>,
        path: Seq<u32>,
    )
        ensures
            self.below(dims, members, path) == admits(
                ids_let_through(filters_by(self.weights_below(dims, members))),
                path,
            ),
    {
        let allowed = ids_let_through(filters_by(self.weights_below(dims, members)));
        if path.len() == members.len() {
            assert forall|i: int| 0 <= i < path.len() implies #[trigger] allowed[i] == Some(
                self.dim(dims, i).leaf_weights(split(members[i]).0, split(members[i]).1).dom(),
            ) by {}
            if admits(allowed, path) {
                assert forall|i: int| 0 <= i < path.len() implies #[trigger] self.dim(
                    dims,
                    i,
                ).leaf_weights(split(members[i]).0, split(members[i]).1).contains_key(path[i]) by {
                    assert(allowed[i] is Some);
                }
            }
        }
    }

    /// A query without axes shows none.
    proof fn no_axes(self, query: SliceModel, n: int)
        requires
            query.axes.len() == 0,
        ensures
            crate::cube::slice::axis_places(self.dimension_names, query.axes, n).len() == 0,
        decreases n,
    {
        if n > 0 {
            self.no_axes(query, n - 1);
        }
    }

    /// The keys of the groups are those of the cells.
    proof fn keys_of_cells(
        self,
        dims: Seq<DimensionModel<N>>,
        query: SliceModel,
        filters: Seq<Option<Map<u32, N>>>,
        cells: Seq<(Seq<u32>, CellModel<N>)>,
        key: Seq<u32>,
    )
        requires
            forall|i: int|
                0 <= i < cells.len() ==> self.row_key(query, (#[trigger] cells[i]).0) == key,
        ensures
            forall|g: int|
                0 <= g < self.grouped(dims, query, filters, cells).len() ==> (
                #[trigger] self.grouped(dims, query, filters, cells)[g]).key == key,
        decreases cells.len(),
    {
        if cells.len() > 0 {
            let rest = cells.drop_last();
            assert forall|i: int| 0 <= i < rest.len() implies self.row_key(
                query,
                (#[trigger] rest[i]).0,
            ) == key by {
                assert(rest[i] == cells[i]);
            }
            self.keys_of_cells(dims, query, filters, rest, key);
            assert(self.row_key(query, cells[cells.len() - 1].0) == key);
            place_of_group_is_first(self.grouped(dims, query, filters, rest), key);
        }
    }
}

} // verus!
