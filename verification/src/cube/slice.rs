//! Slices of a cube: the cells that pass the filters, grouped by the axes.

use crate::cube::cube::{dims_of, split, split_qualified, Cube, CubeModel};
use crate::cube::node::{CellModel, CellValue};
use crate::dimension::dimension::{Dimension, DimensionModel};
use crate::number::Number;
use crate::storage::id_map::{in_turn, pairs, pairs_of};
use crate::storage::name_map::{entries_of, find_key, keys, lookup, put};
use crate::storage::sparse_store::{
    admits, allowed_ids, listed, listing, listing_of_models, modelled_list,
};
use crate::text::{
    cat3, copy_texts, find_but_case, find_text, has_text, place_but_case, place_of, rows_of, same,
    texts, word,
};
use std::collections::BTreeMap;
use vstd::prelude::*;

verus! {

broadcast use {vstd::std_specs::btree::group_btree_axioms, vstd::laws_cmp::group_laws_cmp};

/// What is asked of a slice.
pub struct SliceQuery {
    /// The columns in the order in which they are asked for.
    pub output_columns: Vec<String>,
    /// The dimensions to group by.
    pub axes: Vec<String>,
    /// The measures that become columns.
    pub requested_measures: Vec<String>,
    /// The members, by dimension, to which the slice is limited.
    pub filters: Vec<(String, Vec<String>)>,
    /// The hierarchies, by dimension, by which rows are ordered. A dimension
    /// that is not here goes by its default hierarchy.
    pub axis_hierarchies: Vec<(String, String)>,
    /// The dimension that a column shows, where the column is not named after
    /// it.
    pub column_dim_index: Vec<(String, usize)>,
}

/// The rows of a slice.
pub struct ResultSet {
    pub headers: Vec<String>,
    pub rows: Vec<Vec<String>>,
}

/// What is asked of a slice, with text as characters.
#[verifier::ext_equal]
pub struct SliceModel {
    pub columns: Seq<Seq<char>>,
    pub axes: Seq<Seq<char>>,
    pub measures: Seq<Seq<char>>,
    pub filters: Seq<(Seq<char>, Seq<Seq<char>>)>,
    pub axis_hierarchies: Seq<(Seq<char>, Seq<char>)>,
    pub column_dims: Seq<(Seq<char>, usize)>,
}

/// The rows of a slice, with text as characters.
#[verifier::ext_equal]
pub struct ResultModel {
    pub headers: Seq<Seq<char>>,
    pub rows: Seq<Seq<Seq<char>>>,
}

/// Lists of names by name.
pub open spec fn filters_of(v: Seq<(String, Vec<String>)>) -> Seq<(Seq<char>, Seq<Seq<char>>)> {
    Seq::new(v.len(), |i: int| (v[i].0@, texts(v[i].1@)))
}

/// Names by name.
pub open spec fn renames_of(v: Seq<(String, String)>) -> Seq<(Seq<char>, Seq<char>)> {
    Seq::new(v.len(), |i: int| (v[i].0@, v[i].1@))
}

impl View for SliceQuery {
    type V = SliceModel;

    open spec fn view(&self) -> SliceModel {
        SliceModel {
            columns: texts(self.output_columns@),
            axes: texts(self.axes@),
            measures: texts(self.requested_measures@),
            filters: filters_of(self.filters@),
            axis_hierarchies: renames_of(self.axis_hierarchies@),
            column_dims: entries_of(self.column_dim_index@),
        }
    }
}

impl View for ResultSet {
    type V = ResultModel;

    open spec fn view(&self) -> ResultModel {
        ResultModel { headers: texts(self.headers@), rows: rows_of(self.rows@) }
    }
}

impl SliceModel {
    /// Nothing asked.
    pub open spec fn empty() -> Self {
        SliceModel {
            columns: Seq::empty(),
            axes: Seq::empty(),
            measures: Seq::empty(),
            filters: Seq::empty(),
            axis_hierarchies: Seq::empty(),
            column_dims: Seq::empty(),
        }
    }
}

impl Default for SliceQuery {
    fn default() -> (r: Self)
        ensures
            r@ == SliceModel::empty(),
    {
        SliceQuery {
            output_columns: Vec::new(),
            axes: Vec::new(),
            requested_measures: Vec::new(),
            filters: Vec::new(),
            axis_hierarchies: Vec::new(),
            column_dim_index: Vec::new(),
        }
    }
}

// ---------------------------------------------------------------------------
// Filters
// ---------------------------------------------------------------------------

/// The members that the values of a filter let through, with their weights. In
/// a cube that sums up these are the leaves below the values. Of two weights
/// for one member the later counts.
pub open spec fn filter_weights<N: Number>(
    dim: DimensionModel<N>,
    is_aggregating: bool,
    values: Seq<Seq<char>>,
) -> Result<Map<u32, N>, Seq<char>>
    decreases values.len(),
{
    if values.len() == 0 {
        Ok(Map::empty())
    } else {
        match filter_weights(dim, is_aggregating, values.drop_last()) {
            Err(e) => Err(e),
            Ok(weights) => {
                let (hierarchy, member) = split(values.last());
                let missing = Err("Member '"@ + values.last() + "' not found"@);
                if is_aggregating {
                    let leaves = dim.leaf_weights(hierarchy, member);
                    if pairs_of(leaves).len() == 0 {
                        missing
                    } else {
                        Ok(weights.union_prefer_right(leaves))
                    }
                } else {
                    match dim.id_in(hierarchy, member) {
                        Some(id) => Ok(weights.insert(id, N::one_spec())),
                        None => missing,
                    }
                }
            },
        }
    }
}

proof fn filter_stays_failed<N: Number>(
    dim: DimensionModel<N>,
    is_aggregating: bool,
    values: Seq<Seq<char>>,
    n: int,
)
    requires
        0 <= n <= values.len(),
        filter_weights(dim, is_aggregating, values.take(n)) is Err,
    ensures
        filter_weights(dim, is_aggregating, values) == filter_weights(
            dim,
            is_aggregating,
            values.take(n),
        ),
    decreases values.len() - n,
{
    if n < values.len() {
        assert(values.take(n + 1).drop_last() =~= values.take(n));
        filter_stays_failed(dim, is_aggregating, values, n + 1);
    } else {
        assert(values.take(n) =~= values);
    }
}

/// Puts every entry of `more` into `weights`.
fn overlay<N: Number>(weights: &mut BTreeMap<u32, N>, more: &BTreeMap<u32, N>) -> (r: bool)
    ensures
        final(weights)@ == old(weights)@.union_prefer_right(more@),
        r == (pairs_of(more@).len() > 0),
{
    let list = pairs(more);
    let ghost ids = in_turn(more@.dom());
    let ghost was = weights@;
    let mut i: usize = 0;
    while i < list.len()
        invariant
            i <= list@.len(),
            ids == in_turn(more@.dom()),
            ids.to_set() == more@.dom(),
            list@ == pairs_of(more@),
            forall|id: u32| #[trigger]
                weights@.contains_key(id) == (was.contains_key(id) || ids.take(i as int).contains(
                    id,
                )),
            forall|id: u32|
                weights@.contains_key(id) ==> #[trigger] weights@[id] == (if ids.take(
                    i as int,
                ).contains(id) {
                    more@[id]
                } else {
                    was[id]
                }),
        decreases list@.len() - i,
    {
        let (id, weight) = list[i];
        weights.insert(id, weight);
        assert forall|other: u32| ids.take(i as int + 1).contains(other) == (other == id
            || ids.take(i as int).contains(other)) by {
            let now = ids.take(i as int + 1);
            let before = ids.take(i as int);
            assert(now[i as int] == id);
            if before.contains(other) {
                let k = choose|k: int| 0 <= k < before.len() && before[k] == other;
                assert(now[k] == other);
            }
            if now.contains(other) && other != id {
                let k = choose|k: int| 0 <= k < now.len() && now[k] == other;
                assert(before[k] == other);
            }
        }
        i += 1;
    }
    proof {
        assert(ids.take(i as int) =~= ids);
        assert forall|id: u32| ids.contains(id) == more@.contains_key(id) by {
            assert(ids.to_set().contains(id) == more@.dom().contains(id));
        }
        assert(weights@ =~= was.union_prefer_right(more@));
    }
    list.len() > 0
}

fn filter_for<N: Number>(dim: &Dimension<N>, is_aggregating: bool, values: &Vec<String>) -> (r:
    Result<BTreeMap<u32, N>, String>)
    ensures
        match r {
            Ok(weights) => filter_weights(dim@, is_aggregating, texts(values@)) == Ok::<
                Map<u32, N>,
                Seq<char>,
            >(weights@),
            Err(e) => filter_weights(dim@, is_aggregating, texts(values@)) == Err::<
                Map<u32, N>,
                Seq<char>,
            >(e@),
        },
{
    let ghost all = texts(values@);
    let mut weights: BTreeMap<u32, N> = BTreeMap::new();
    let mut i: usize = 0;
    while i < values.len()
        invariant
            i <= values@.len(),
            all == texts(values@),
            filter_weights(dim@, is_aggregating, all.take(i as int)) == Ok::<
                Map<u32, N>,
                Seq<char>,
            >(weights@),
        decreases values@.len() - i,
    {
        assert(all.take(i as int + 1).drop_last() =~= all.take(i as int));
        let value = values[i].as_str();
        let (hier, member) = split_qualified(value);
        let found = if is_aggregating {
            let leaves = dim.get_leaf_descendants_in(word(&hier), member.as_str());
            overlay(&mut weights, &leaves)
        } else {
            match dim.get_id_in(word(&hier), member.as_str()) {
                Some(id) => {
                    weights.insert(id, N::one());
                    true
                },
                None => false,
            }
        };
        if !found {
            proof {
                filter_stays_failed(dim@, is_aggregating, all, i as int + 1);
            }
            return Err(cat3("Member '", value, "' not found"));
        }
        i += 1;
    }
    assert(all.take(i as int) =~= all);
    Ok(weights)
}

/// The maps of optional filters.
pub open spec fn weights_of<N>(v: Seq<Option<BTreeMap<u32, N>>>) -> Seq<Option<Map<u32, N>>> {
    Seq::new(
        v.len(),
        |i: int|
            match v[i] {
                Some(m) => Some(m@),
                None => None,
            },
    )
}

/// The ids that optional filters let through.
pub open spec fn ids_let_through<N>(filters: Seq<Option<Map<u32, N>>>) -> Seq<Option<Set<u32>>> {
    Seq::new(
        filters.len(),
        |i: int|
            match filters[i] {
                Some(m) => Some(m.dom()),
                None => None,
            },
    )
}

// ---------------------------------------------------------------------------
// Groups
// ---------------------------------------------------------------------------

/// The value of a measure after one cell more: numbers add up, a text takes
/// the place of what was there.
pub open spec fn combined<N: Number>(existing: CellModel<N>, new: CellModel<N>) -> CellModel<N> {
    match (existing, new) {
        (CellModel::Numeric(a), CellModel::Numeric(b)) => CellModel::Numeric(a.plus_spec(b)),
        _ => new,
    }
}

/// The group of a row: its key, and its measures in the order of their coming.
pub struct GroupModel<N> {
    pub key: Seq<u32>,
    pub measures: Seq<(Seq<char>, CellModel<N>)>,
}

/// The place of the group with that key.
pub open spec fn place_of_group<N>(groups: Seq<GroupModel<N>>, key: Seq<u32>) -> Option<int>
    decreases groups.len(),
{
    if groups.len() == 0 {
        None
    } else {
        match place_of_group(groups.drop_last(), key) {
            Some(i) => Some(i),
            None => if groups.last().key == key {
                Some(groups.len() - 1)
            } else {
                None
            },
        }
    }
}

/// The measures after one cell more.
pub open spec fn measured<N: Number>(
    measures: Seq<(Seq<char>, CellModel<N>)>,
    name: Seq<char>,
    value: CellModel<N>,
) -> Seq<(Seq<char>, CellModel<N>)> {
    let existing = match lookup(measures, name) {
        Some(cell) => cell,
        None => CellModel::Numeric(N::zero_spec()),
    };
    put(measures, name, combined(existing, value))
}

/// The groups after one cell more.
pub open spec fn gathered<N: Number>(
    groups: Seq<GroupModel<N>>,
    key: Seq<u32>,
    name: Seq<char>,
    value: CellModel<N>,
) -> Seq<GroupModel<N>> {
    match place_of_group(groups, key) {
        Some(i) => groups.update(
            i,
            GroupModel { key: groups[i].key, measures: measured(groups[i].measures, name, value) },
        ),
        None => groups.push(GroupModel { key, measures: measured(Seq::empty(), name, value) }),
    }
}

/// The ranks are in order: by the first in which they differ.
pub open spec fn ranks_in_order(a: Seq<usize>, b: Seq<usize>) -> bool
    decreases a.len(),
{
    if a.len() == 0 || b.len() == 0 {
        true
    } else if a[0] == b[0] {
        ranks_in_order(a.skip(1), b.skip(1))
    } else {
        a[0] < b[0]
    }
}

/// The groups with one more behind all that do not come after it.
pub open spec fn group_inserted<N>(
    groups: Seq<GroupModel<N>>,
    group: GroupModel<N>,
    ranks: spec_fn(Seq<u32>) -> Seq<usize>,
) -> Seq<GroupModel<N>>
    decreases groups.len(),
{
    if groups.len() == 0 || ranks_in_order(ranks(groups.last().key), ranks(group.key)) {
        groups.push(group)
    } else {
        group_inserted(groups.drop_last(), group, ranks).push(groups.last())
    }
}

/// The groups in the order of their ranks; those of the same ranks as they
/// came.
pub open spec fn groups_sorted<N>(
    groups: Seq<GroupModel<N>>,
    ranks: spec_fn(Seq<u32>) -> Seq<usize>,
) -> Seq<GroupModel<N>>
    decreases groups.len(),
{
    if groups.len() == 0 {
        groups
    } else {
        group_inserted(groups_sorted(groups.drop_last(), ranks), groups.last(), ranks)
    }
}

// ---------------------------------------------------------------------------
// The slice
// ---------------------------------------------------------------------------

/// The places of the names that are among the axes, up to `n`.
pub open spec fn axis_places(names: Seq<Seq<char>>, axes: Seq<Seq<char>>, n: int) -> Seq<usize>
    decreases n,
{
    if n <= 0 {
        Seq::empty()
    } else if axes.contains(names[n - 1]) {
        axis_places(names, axes, n - 1).push((n - 1) as usize)
    } else {
        axis_places(names, axes, n - 1)
    }
}

/// The places without the one of the measures, if measures become columns.
pub open spec fn shown_places(axes: Seq<usize>, pivot: Option<int>) -> Seq<usize>
    decreases axes.len(),
{
    if axes.len() == 0 {
        axes
    } else if pivot == Some(axes.last() as int) {
        shown_places(axes.drop_last(), pivot)
    } else {
        shown_places(axes.drop_last(), pivot).push(axes.last())
    }
}

/// The first place of `n`.
pub open spec fn place_of_index(list: Seq<usize>, n: usize) -> Option<int>
    decreases list.len(),
{
    if list.len() == 0 {
        None
    } else {
        match place_of_index(list.drop_last(), n) {
            Some(i) => Some(i),
            None => if list.last() == n {
                Some(list.len() - 1)
            } else {
                None
            },
        }
    }
}

impl<N: Number> CubeModel<N> {
    /// The dimensions with the display orders of the cube's first `n` up to
    /// date.
    pub open spec fn dims_ensured(self, dims: Seq<DimensionModel<N>>, n: int) -> Seq<
        DimensionModel<N>,
    >
        decreases n,
    {
        if n <= 0 {
            dims
        } else {
            let before = self.dims_ensured(dims, n - 1);
            let slot = self.dimensions[n - 1] as int;
            before.update(slot, before[slot].ensured())
        }
    }

    /// The filter of each of the first `n` dimensions.
    pub open spec fn slice_filters(
        self,
        dims: Seq<DimensionModel<N>>,
        query: SliceModel,
        n: int,
    ) -> Result<Seq<Option<Map<u32, N>>>, Seq<char>>
        decreases n,
    {
        if n <= 0 {
            Ok(Seq::empty())
        } else {
            match self.slice_filters(dims, query, n - 1) {
                Err(e) => Err(e),
                Ok(filters) => match lookup(query.filters, self.dimension_names[n - 1]) {
                    None => Ok(filters.push(None)),
                    Some(values) => match filter_weights(
                        self.dim(dims, n - 1),
                        self.is_aggregating,
                        values,
                    ) {
                        Ok(weights) => Ok(filters.push(Some(weights))),
                        Err(e) => Err(e),
                    },
                },
            }
        }
    }

    /// The place of the dimension of the measures.
    pub open spec fn measure_place(self) -> Option<int> {
        match self.measure_dimension {
            Some(name) => place_of(self.dimension_names, name),
            None => None,
        }
    }

    /// The place of the dimension whose members become columns.
    pub open spec fn pivot(self, query: SliceModel) -> Option<int> {
        if query.measures.len() > 0 {
            self.measure_place()
        } else {
            None
        }
    }

    /// The dimensions that are grouped by.
    pub open spec fn axes(self, query: SliceModel) -> Seq<usize> {
        axis_places(self.dimension_names, query.axes, self.dimension_names.len() as int)
    }

    /// The dimensions that are shown in columns of their own.
    pub open spec fn shown_axes(self, query: SliceModel) -> Seq<usize> {
        shown_places(self.axes(query), self.pivot(query))
    }

    /// A cell by the weights of the first `n` filters.
    pub open spec fn weighted(
        self,
        filters: Seq<Option<Map<u32, N>>>,
        coords: Seq<u32>,
        base: CellModel<N>,
        n: int,
    ) -> CellModel<N>
        decreases n,
    {
        if n <= 0 {
            base
        } else {
            let before = self.weighted(filters, coords, base, n - 1);
            match (filters[n - 1], before) {
                (Some(weights), CellModel::Numeric(v)) => if self.is_aggregating
                    && weights.contains_key(coords[n - 1]) {
                    CellModel::Numeric(v.times_spec(weights[coords[n - 1]]))
                } else {
                    before
                },
                _ => before,
            }
        }
    }

    /// The ids by which a cell is grouped: of the axes that are shown, in their
    /// order, and behind them of the measures, where these are neither shown nor
    /// become columns.
    pub open spec fn row_key(self, query: SliceModel, coords: Seq<u32>) -> Seq<u32> {
        let shown = self.shown_axes(query);
        let ids = Seq::new(shown.len(), |slot: int| coords[shown[slot] as int]);
        match self.measure_place() {
            Some(m) => if self.pivot(query) is None && !shown.contains(m as usize) {
                ids.push(coords[m])
            } else {
                ids
            },
            None => ids,
        }
    }

    /// The measure of a cell: as it was asked for, where it was.
    pub open spec fn measure_name(
        self,
        dims: Seq<DimensionModel<N>>,
        query: SliceModel,
        coords: Seq<u32>,
    ) -> Seq<char> {
        match self.pivot(query) {
            Some(i) => {
                let name = self.dim(dims, i).name_of(coords[i]);
                match place_but_case(query.measures, name) {
                    Some(k) => query.measures[k],
                    None => name,
                }
            },
            None => "value"@,
        }
    }

    /// The groups of the cells.
    pub open spec fn grouped(
        self,
        dims: Seq<DimensionModel<N>>,
        query: SliceModel,
        filters: Seq<Option<Map<u32, N>>>,
        cells: Seq<(Seq<u32>, CellModel<N>)>,
    ) -> Seq<GroupModel<N>>
        decreases cells.len(),
    {
        if cells.len() == 0 {
            Seq::empty()
        } else {
            let (coords, base) = cells.last();
            let count = self.dimensions.len() as int;
            gathered(
                self.grouped(dims, query, filters, cells.drop_last()),
                self.row_key(query, coords),
                self.measure_name(dims, query, coords),
                self.weighted(filters, coords, base, count),
            )
        }
    }

    /// The ranks of a key: the place of each id in the display order of its
    /// axis.
    pub open spec fn key_ranks(self, dims: Seq<DimensionModel<N>>, query: SliceModel, key: Seq<u32>) -> Seq<
        usize,
    > {
        let shown = self.shown_axes(query);
        Seq::new(
            shown.len(),
            |slot: int|
                if slot < key.len() {
                    self.dim(dims, shown[slot] as int).rank(
                        lookup(query.axis_hierarchies, self.dimension_names[shown[slot] as int]),
                        key[slot],
                    )
                } else {
                    usize::MAX
                },
        )
    }

    /// The last of the first `n` shown axes that is named after the column.
    pub open spec fn slot_named(self, query: SliceModel, column: Seq<char>, n: int) -> Option<int>
        decreases n,
    {
        let shown = self.shown_axes(query);
        if n <= 0 {
            None
        } else if self.dimension_names[shown[n - 1] as int] == column {
            Some(n - 1)
        } else {
            self.slot_named(query, column, n - 1)
        }
    }

    /// The axis that a column shows: the one it is named after, or else the one
    /// it stands for.
    pub open spec fn slot_of(self, query: SliceModel, key: Seq<u32>, column: Seq<char>) -> Option<
        int,
    > {
        let shown = self.shown_axes(query);
        let known = if key.len() < shown.len() {
            key.len()
        } else {
            shown.len()
        };
        match self.slot_named(query, column, known as int) {
            Some(slot) => Some(slot),
            None => match lookup(query.column_dims, column) {
                Some(i) => match place_of_index(shown, i) {
                    Some(slot) => if slot < key.len() {
                        Some(slot)
                    } else {
                        None
                    },
                    None => None,
                },
                None => None,
            },
        }
    }

    /// One cell of a row: a member, a measure, or nothing.
    pub open spec fn column_text(
        self,
        dims: Seq<DimensionModel<N>>,
        query: SliceModel,
        group: GroupModel<N>,
        column: Seq<char>,
    ) -> Seq<char> {
        match self.slot_of(query, group.key, column) {
            Some(slot) => self.dim(dims, self.shown_axes(query)[slot] as int).name_of(
                group.key[slot],
            ),
            None => if query.measures.contains(column) || column == "value"@ {
                let name = match place_but_case(query.measures, column) {
                    Some(k) => query.measures[k],
                    None => column,
                };
                match lookup(group.measures, name) {
                    Some(cell) => cell.shown(),
                    None => "-"@,
                }
            } else {
                ""@
            },
        }
    }

    pub open spec fn row(
        self,
        dims: Seq<DimensionModel<N>>,
        query: SliceModel,
        group: GroupModel<N>,
    ) -> Seq<Seq<char>> {
        Seq::new(
            query.columns.len(),
            |i: int| self.column_text(dims, query, group, query.columns[i]),
        )
    }

    /// The slice of the cells that pass the filters.
    pub open spec fn sliced(
        self,
        dims: Seq<DimensionModel<N>>,
        query: SliceModel,
        filters: Seq<Option<Map<u32, N>>>,
    ) -> ResultModel {
        let cells = listing(self.cells, |path: Seq<u32>| admits(ids_let_through(filters), path));
        let groups = groups_sorted(
            self.grouped(dims, query, filters, cells),
            |key: Seq<u32>| self.key_ranks(dims, query, key),
        );
        ResultModel {
            headers: query.columns,
            rows: Seq::new(groups.len(), |i: int| self.row(dims, query, groups[i])),
        }
    }

    /// The answer to a slice query.
    pub open spec fn slice(self, dims: Seq<DimensionModel<N>>, query: SliceModel) -> Result<
        ResultModel,
        Seq<char>,
    > {
        match self.slice_filters(dims, query, self.dimension_names.len() as int) {
            Ok(filters) => Ok(self.sliced(dims, query, filters)),
            Err(e) => Err(e),
        }
    }
}

// ---------------------------------------------------------------------------
// Making the slice
// ---------------------------------------------------------------------------

/// The group of a row.
struct Group<N> {
    key: Vec<u32>,
    measures: Vec<(String, CellValue<N>)>,
}

/// Measures with text as characters.
spec fn measures_of<N: Number>(v: Seq<(String, CellValue<N>)>) -> Seq<(Seq<char>, CellModel<N>)> {
    Seq::new(v.len(), |i: int| (v[i].0@, v[i].1@))
}

impl<N: Number> View for Group<N> {
    type V = GroupModel<N>;

    closed spec fn view(&self) -> GroupModel<N> {
        GroupModel { key: self.key@, measures: measures_of(self.measures@) }
    }
}

spec fn groups_of<N: Number>(v: Seq<Group<N>>) -> Seq<GroupModel<N>> {
    Seq::new(v.len(), |i: int| v[i]@)
}

proof fn place_of_group_extends<N>(groups: Seq<GroupModel<N>>, n: int, key: Seq<u32>)
    requires
        0 <= n <= groups.len(),
        place_of_group(groups.take(n), key) is Some,
    ensures
        place_of_group(groups, key) == place_of_group(groups.take(n), key),
    decreases groups.len() - n,
{
    if n < groups.len() {
        assert(groups.take(n + 1).drop_last() =~= groups.take(n));
        place_of_group_extends(groups, n + 1, key);
    } else {
        assert(groups.take(n) =~= groups);
    }
}

fn same_ids(a: &Vec<u32>, b: &Vec<u32>) -> (r: bool)
    ensures
        r == (a@ == b@),
{
    if a.len() != b.len() {
        return false;
    }
    let mut i: usize = 0;
    while i < a.len()
        invariant
            i <= a@.len(),
            a@.len() == b@.len(),
            forall|k: int| 0 <= k < i ==> a@[k] == b@[k],
        decreases a@.len() - i,
    {
        if a[i] != b[i] {
            return false;
        }
        i += 1;
    }
    assert(a@ =~= b@);
    true
}

fn find_group<N: Number>(groups: &Vec<Group<N>>, key: &Vec<u32>) -> (r: Option<usize>)
    ensures
        match r {
            Some(i) => place_of_group(groups_of(groups@), key@) == Some(i as int) && i
                < groups@.len(),
            None => place_of_group(groups_of(groups@), key@) is None,
        },
{
    let ghost all = groups_of(groups@);
    let mut i: usize = 0;
    while i < groups.len()
        invariant
            i <= groups@.len(),
            all == groups_of(groups@),
            place_of_group(all.take(i as int), key@) is None,
        decreases groups@.len() - i,
    {
        assert(all.take(i as int + 1).drop_last() =~= all.take(i as int));
        if same_ids(&groups[i].key, key) {
            proof {
                place_of_group_extends(all, i as int + 1, key@);
            }
            return Some(i);
        }
        i += 1;
    }
    assert(all.take(i as int) =~= all);
    None
}

/// The measure's value after one cell more.
fn combine<N: Number>(existing: &CellValue<N>, new: CellValue<N>) -> (r: CellValue<N>)
    ensures
        r@ == combined(existing@, new@),
{
    match (existing, new) {
        (CellValue::Numeric(a), CellValue::Numeric(b)) => CellValue::Numeric(a.plus(b)),
        (_, new) => new,
    }
}

fn measure<N: Number>(
    measures: &mut Vec<(String, CellValue<N>)>,
    name: String,
    value: CellValue<N>,
)
    ensures
        measures_of(final(measures)@) == measured(measures_of(old(measures)@), name@, value@),
{
    let ghost was = measures_of(measures@);
    assert(keys(entries_of(measures@)) =~= keys(was));
    let ghost key = name@;
    match find_key(measures, name.as_str()) {
        Some(i) => {
            let cell = combine(&measures[i].1, value);
            let ghost model = cell@;
            measures.set(i, (name, cell));
            assert(measures_of(measures@) =~= was.update(i as int, (key, model)));
        },
        None => {
            let cell = combine(&CellValue::Numeric(N::zero()), value);
            let ghost model = cell@;
            measures.push((name, cell));
            assert(measures_of(measures@) =~= was.push((key, model)));
        },
    }
}

fn gather<N: Number>(
    groups: &mut Vec<Group<N>>,
    key: Vec<u32>,
    name: String,
    value: CellValue<N>,
)
    ensures
        groups_of(final(groups)@) == gathered(groups_of(old(groups)@), key@, name@, value@),
{
    let ghost was = groups_of(groups@);
    match find_group(groups, &key) {
        Some(i) => {
            let ghost before = groups@[i as int]@;
            measure(&mut groups[i].measures, name, value);
            assert(groups@[i as int]@ == (GroupModel {
                key: before.key,
                measures: measured(before.measures, name@, value@),
            }));
            assert(groups_of(groups@) =~= was.update(
                i as int,
                GroupModel {
                    key: before.key,
                    measures: measured(before.measures, name@, value@),
                },
            ));
        },
        None => {
            let mut measures: Vec<(String, CellValue<N>)> = Vec::new();
            assert(measures_of(measures@) =~= Seq::<(Seq<char>, CellModel<N>)>::empty());
            measure(&mut measures, name, value);
            groups.push(Group { key, measures });
            assert(groups_of(groups@) =~= was.push(
                GroupModel { key: key@, measures: measured(Seq::empty(), name@, value@) },
            ));
        },
    }
}

fn ranks_ordered(a: &Vec<usize>, b: &Vec<usize>) -> (r: bool)
    ensures
        r == ranks_in_order(a@, b@),
{
    let mut i: usize = 0;
    assert(a@.skip(0) =~= a@);
    assert(b@.skip(0) =~= b@);
    while i < a.len() && i < b.len()
        invariant
            i <= a@.len(),
            i <= b@.len(),
            ranks_in_order(a@, b@) == ranks_in_order(a@.skip(i as int), b@.skip(i as int)),
        decreases a@.len() - i,
    {
        assert(a@.skip(i as int).skip(1) =~= a@.skip(i as int + 1));
        assert(b@.skip(i as int).skip(1) =~= b@.skip(i as int + 1));
        if a[i] != b[i] {
            return a[i] < b[i];
        }
        i += 1;
    }
    true
}

fn find_index(list: &Vec<usize>, n: usize) -> (r: Option<usize>)
    ensures
        match r {
            Some(i) => place_of_index(list@, n) == Some(i as int) && i < list@.len() && list@[i as int]
                == n,
            None => place_of_index(list@, n) is None && !list@.contains(n),
        },
{
    let mut i: usize = 0;
    while i < list.len()
        invariant
            i <= list@.len(),
            place_of_index(list@.take(i as int), n) is None,
            forall|k: int| 0 <= k < i ==> list@[k] != n,
        decreases list@.len() - i,
    {
        assert(list@.take(i as int + 1).drop_last() =~= list@.take(i as int));
        if list[i] == n {
            proof {
                place_of_index_extends(list@, i as int + 1, n);
            }
            return Some(i);
        }
        i += 1;
    }
    assert(list@.take(i as int) =~= list@);
    None
}

proof fn place_of_index_extends(list: Seq<usize>, n: int, item: usize)
    requires
        0 <= n <= list.len(),
        place_of_index(list.take(n), item) is Some,
    ensures
        place_of_index(list, item) == place_of_index(list.take(n), item),
    decreases list.len() - n,
{
    if n < list.len() {
        assert(list.take(n + 1).drop_last() =~= list.take(n));
        place_of_index_extends(list, n + 1, item);
    } else {
        assert(list.take(n) =~= list);
    }
}

/// How a slice is laid out: where its axes and its measures are.
struct Layout {
    axes: Vec<usize>,
    shown: Vec<usize>,
    measure: Option<usize>,
    pivot: Option<usize>,
}

spec fn as_place(i: Option<usize>) -> Option<int> {
    match i {
        Some(i) => Some(i as int),
        None => None,
    }
}

impl Layout {
    spec fn of<N: Number>(self, cube: CubeModel<N>, query: SliceModel) -> bool {
        &&& self.axes@ == cube.axes(query)
        &&& self.shown@ == cube.shown_axes(query)
        &&& as_place(self.measure) == cube.measure_place()
        &&& as_place(self.pivot) == cube.pivot(query)
        &&& forall|k: int|
            0 <= k < self.shown@.len() ==> #[trigger] self.shown@[k] < cube.dimension_names.len()
        &&& self.pivot matches Some(i) ==> i < cube.dimension_names.len()
        &&& self.measure matches Some(i) ==> i < cube.dimension_names.len()
    }
}

impl<N: Number> Cube<N> {
    fn layout(&self, query: &SliceQuery) -> (r: Layout)
        ensures
            r.of(self@, query@),
    {
        let ghost names = self@.dimension_names;
        let mut axes: Vec<usize> = Vec::new();
        let mut i: usize = 0;
        while i < self.dimension_names.len()
            invariant
                i <= self.dimension_names@.len(),
                names == self@.dimension_names,
                axes@ == axis_places(names, query@.axes, i as int),
                forall|k: int| 0 <= k < axes@.len() ==> #[trigger] axes@[k] < i,
            decreases self.dimension_names@.len() - i,
        {
            if has_text(&query.axes, self.dimension_names[i].as_str()) {
                axes.push(i);
            }
            i += 1;
        }
        let measure = match &self.measure_dimension {
            Some(name) => find_text(&self.dimension_names, name.as_str()),
            None => None,
        };
        let pivot = if query.requested_measures.len() > 0 {
            measure
        } else {
            None
        };
        let mut shown: Vec<usize> = Vec::new();
        let mut i: usize = 0;
        while i < axes.len()
            invariant
                i <= axes@.len(),
                forall|k: int|
                    0 <= k < axes@.len() ==> #[trigger] axes@[k] < self.dimension_names@.len(),
                shown@ == shown_places(axes@.take(i as int), as_place(pivot)),
                forall|k: int|
                    0 <= k < shown@.len() ==> #[trigger] shown@[k] < self.dimension_names@.len(),
            decreases axes@.len() - i,
        {
            assert(axes@.take(i as int + 1).drop_last() =~= axes@.take(i as int));
            let pivots = match pivot {
                Some(p) => p == axes[i],
                None => false,
            };
            if !pivots {
                shown.push(axes[i]);
            }
            i += 1;
        }
        assert(axes@.take(i as int) =~= axes@);
        Layout { axes, shown, measure, pivot }
    }

    fn filters_for(&self, dims: &Vec<Dimension<N>>, query: &SliceQuery) -> (r: Result<
        Vec<Option<BTreeMap<u32, N>>>,
        String,
    >)
        requires
            self@.fits(dims@.len()),
        ensures
            ({
                let spec = self@.slice_filters(
                    dims_of(dims@),
                    query@,
                    self@.dimension_names.len() as int,
                );
                match r {
                    Ok(filters) => spec == Ok::<Seq<Option<Map<u32, N>>>, Seq<char>>(
                        weights_of(filters@),
                    ),
                    Err(e) => spec == Err::<Seq<Option<Map<u32, N>>>, Seq<char>>(e@),
                }
            }),
    {
        let ghost models = dims_of(dims@);
        let ghost all = filters_of(query.filters@);
        assert(keys(entries_of(query.filters@)) =~= keys(all));
        let mut filters: Vec<Option<BTreeMap<u32, N>>> = Vec::new();
        let mut i: usize = 0;
        assert(weights_of(filters@) =~= Seq::<Option<Map<u32, N>>>::empty());
        while i < self.dimension_names.len()
            invariant
                i <= self.dimension_names@.len(),
                self@.fits(dims@.len()),
                models == dims_of(dims@),
                all == query@.filters,
                keys(entries_of(query.filters@)) == keys(all),
                self@.slice_filters(models, query@, i as int) == Ok::<
                    Seq<Option<Map<u32, N>>>,
                    Seq<char>,
                >(weights_of(filters@)),
            decreases self.dimension_names@.len() - i,
        {
            let ghost done = weights_of(filters@);
            assert(self@.dimension_names[i as int] == self.dimension_names@[i as int]@);
            match find_key(&query.filters, self.dimension_names[i].as_str()) {
                None => {
                    filters.push(None);
                    assert(weights_of(filters@) =~= done.push(None));
                },
                Some(k) => {
                    let slot = self.dimensions[i];
                    assert(slot < dims@.len());
                    match filter_for(&dims[slot], self.is_aggregating, &query.filters[k].1) {
                        Ok(weights) => {
                            let ghost model = weights@;
                            filters.push(Some(weights));
                            assert(weights_of(filters@) =~= done.push(Some(model)));
                        },
                        Err(e) => {
                            proof {
                                self@.slice_filters_stay_failed(
                                    models,
                                    query@,
                                    i as int + 1,
                                    self@.dimension_names.len() as int,
                                );
                            }
                            return Err(e);
                        },
                    }
                },
            }
            i += 1;
        }
        Ok(filters)
    }

    /// The cell by the weights of the filters.
    fn weigh(
        &self,
        filters: &Vec<Option<BTreeMap<u32, N>>>,
        coords: &Vec<u32>,
        base: &CellValue<N>,
    ) -> (r: CellValue<N>)
        requires
            filters@.len() == self@.dimensions.len(),
            coords@.len() == self@.dimensions.len(),
        ensures
            r@ == self@.weighted(
                weights_of(filters@),
                coords@,
                base@,
                self@.dimensions.len() as int,
            ),
    {
        let ghost all = weights_of(filters@);
        let mut cell = base.copy();
        let mut i: usize = 0;
        while i < self.dimensions.len()
            invariant
                i <= self.dimensions@.len(),
                filters@.len() == self@.dimensions.len(),
                coords@.len() == self@.dimensions.len(),
                all == weights_of(filters@),
                cell@ == self@.weighted(all, coords@, base@, i as int),
            decreases self.dimensions@.len() - i,
        {
            if self.is_aggregating {
                match &filters[i] {
                    Some(weights) => match weights.get(&coords[i]) {
                        Some(weight) => {
                            cell = match cell {
                                CellValue::Numeric(n) => CellValue::Numeric(n.times(*weight)),
                                other => other,
                            };
                        },
                        None => {},
                    },
                    None => {},
                }
            }
            i += 1;
        }
        cell
    }

    fn key_for(&self, query: &SliceQuery, layout: &Layout, coords: &Vec<u32>) -> (r: Vec<u32>)
        requires
            layout.of(self@, query@),
            coords@.len() == self@.dimension_names.len(),
        ensures
            r@ == self@.row_key(query@, coords@),
    {
        let ghost ids = Seq::new(
            layout.shown@.len(),
            |slot: int| coords@[layout.shown@[slot] as int],
        );
        let mut key: Vec<u32> = Vec::new();
        let mut slot: usize = 0;
        while slot < layout.shown.len()
            invariant
                slot <= layout.shown@.len(),
                layout.of(self@, query@),
                coords@.len() == self@.dimension_names.len(),
                ids == Seq::new(
                    layout.shown@.len(),
                    |slot: int| coords@[layout.shown@[slot] as int],
                ),
                key@ == ids.take(slot as int),
            decreases layout.shown@.len() - slot,
        {
            let i = layout.shown[slot];
            assert(i < self@.dimension_names.len());
            key.push(coords[i]);
            assert(key@ =~= ids.take(slot as int + 1));
            slot += 1;
        }
        assert(key@ =~= ids);
        match layout.measure {
            Some(m) => if layout.pivot.is_none() && find_index(&layout.shown, m).is_none() {
                key.push(coords[m]);
            },
            None => {},
        }
        key
    }

    fn name_for(
        &self,
        dims: &Vec<Dimension<N>>,
        query: &SliceQuery,
        layout: &Layout,
        coords: &Vec<u32>,
    ) -> (r: String)
        requires
            self@.fits(dims@.len()),
            layout.of(self@, query@),
            coords@.len() == self@.dimensions.len(),
        ensures
            r@ == self@.measure_name(dims_of(dims@), query@, coords@),
    {
        match layout.pivot {
            Some(i) => {
                let slot = self.dimensions[i];
                assert(slot < dims@.len());
                let name = dims[slot].get_name(coords[i]);
                match find_but_case(&query.requested_measures, name.as_str()) {
                    Some(k) => query.requested_measures[k].clone(),
                    None => name,
                }
            },
            None => "value".to_string(),
        }
    }

    fn group_cells(
        &self,
        dims: &Vec<Dimension<N>>,
        query: &SliceQuery,
        layout: &Layout,
        filters: &Vec<Option<BTreeMap<u32, N>>>,
        cells: &Vec<(Vec<u32>, &CellValue<N>)>,
    ) -> (r: Vec<Group<N>>)
        requires
            self@.fits(dims@.len()),
            layout.of(self@, query@),
            filters@.len() == self@.dimensions.len(),
            forall|k: int|
                0 <= k < cells@.len() ==> (#[trigger] cells@[k]).0@.len() == self@.dimensions.len(),
        ensures
            groups_of(r@) == self@.grouped(
                dims_of(dims@),
                query@,
                weights_of(filters@),
                modelled_list(listed(cells@)),
            ),
    {
        let ghost all = modelled_list(listed(cells@));
        let ghost models = dims_of(dims@);
        let mut groups: Vec<Group<N>> = Vec::new();
        let mut i: usize = 0;
        assert(groups_of(groups@) =~= self@.grouped(
            models,
            query@,
            weights_of(filters@),
            all.take(0),
        ));
        while i < cells.len()
            invariant
                i <= cells@.len(),
                self@.fits(dims@.len()),
                layout.of(self@, query@),
                filters@.len() == self@.dimensions.len(),
                forall|k: int|
                    0 <= k < cells@.len() ==> (#[trigger] cells@[k]).0@.len()
                        == self@.dimensions.len(),
                all == modelled_list(listed(cells@)),
                models == dims_of(dims@),
                groups_of(groups@) == self@.grouped(
                    models,
                    query@,
                    weights_of(filters@),
                    all.take(i as int),
                ),
            decreases cells@.len() - i,
        {
            assert(all.take(i as int + 1).drop_last() =~= all.take(i as int));
            assert(cells@[i as int].0@.len() == self@.dimensions.len());
            let value = self.weigh(filters, &cells[i].0, cells[i].1);
            let key = self.key_for(query, layout, &cells[i].0);
            let name = self.name_for(dims, query, layout, &cells[i].0);
            gather(&mut groups, key, name, value);
            i += 1;
        }
        assert(all.take(i as int) =~= all);
        groups
    }

    fn ranks_for(
        &self,
        dims: &Vec<Dimension<N>>,
        query: &SliceQuery,
        layout: &Layout,
        key: &Vec<u32>,
    ) -> (r: Vec<usize>)
        requires
            self@.fits(dims@.len()),
            layout.of(self@, query@),
        ensures
            r@ == self@.key_ranks(dims_of(dims@), query@, key@),
    {
        let ghost all = self@.key_ranks(dims_of(dims@), query@, key@);
        let ghost renames = renames_of(query.axis_hierarchies@);
        assert(keys(entries_of(query.axis_hierarchies@)) =~= keys(renames));
        let mut ranks: Vec<usize> = Vec::new();
        let mut slot: usize = 0;
        while slot < layout.shown.len()
            invariant
                slot <= layout.shown@.len(),
                self@.fits(dims@.len()),
                layout.of(self@, query@),
                all == self@.key_ranks(dims_of(dims@), query@, key@),
                renames == query@.axis_hierarchies,
                keys(entries_of(query.axis_hierarchies@)) == keys(renames),
                ranks@ == all.take(slot as int),
            decreases layout.shown@.len() - slot,
        {
            let i = layout.shown[slot];
            assert(i < self@.dimension_names.len());
            let rank = if slot < key.len() {
                let at = self.dimensions[i];
                assert(at < dims@.len());
                assert(self@.dimension_names[i as int] == self.dimension_names@[i as int]@);
                let hier = match find_key(&query.axis_hierarchies, self.dimension_names[i].as_str()) {
                    Some(k) => Some(query.axis_hierarchies[k].1.as_str()),
                    None => None,
                };
                dims[at].display_order_rank_in(hier, key[slot])
            } else {
                usize::MAX
            };
            ranks.push(rank);
            assert(rank == all[slot as int]);
            assert(ranks@ =~= all.take(slot as int + 1));
            slot += 1;
        }
        assert(all.take(slot as int) =~= all);
        ranks
    }

    fn insert_group(
        &self,
        dims: &Vec<Dimension<N>>,
        query: &SliceQuery,
        layout: &Layout,
        groups: &mut Vec<Group<N>>,
        group: Group<N>,
    )
        requires
            self@.fits(dims@.len()),
            layout.of(self@, query@),
        ensures
            groups_of(final(groups)@) == group_inserted(
                groups_of(old(groups)@),
                group@,
                |key: Seq<u32>| self@.key_ranks(dims_of(dims@), query@, key),
            ),
    {
        let ghost ranks = |key: Seq<u32>| self@.key_ranks(dims_of(dims@), query@, key);
        let ghost all = groups_of(groups@);
        let ghost model = group@;
        let own = self.ranks_for(dims, query, layout, &group.key);
        let mut at: usize = groups.len();
        assert(all.take(at as int) =~= all);
        assert(group_inserted(all, model, ranks) =~= group_inserted(
            all.take(at as int),
            model,
            ranks,
        ) + all.skip(at as int));
        while at > 0
            invariant
                at <= groups@.len(),
                self@.fits(dims@.len()),
                layout.of(self@, query@),
                ranks == |key: Seq<u32>| self@.key_ranks(dims_of(dims@), query@, key),
                all == groups_of(groups@),
                own@ == ranks(model.key),
                group_inserted(all, model, ranks) == group_inserted(
                    all.take(at as int),
                    model,
                    ranks,
                ) + all.skip(at as int),
            ensures
                at <= groups@.len(),
                all == groups_of(groups@),
                group_inserted(all, model, ranks) == all.take(at as int).push(model) + all.skip(
                    at as int,
                ),
            decreases at,
        {
            let ghost part = all.take(at as int);
            let other = self.ranks_for(dims, query, layout, &groups[at - 1].key);
            assert(part.last() == groups@[at as int - 1]@);
            if ranks_ordered(&other, &own) {
                break;
            }
            assert(part.drop_last() =~= all.take(at as int - 1));
            assert(group_inserted(all, model, ranks) =~= group_inserted(
                all.take(at as int - 1),
                model,
                ranks,
            ) + all.skip(at as int - 1));
            at -= 1;
        }
        groups.insert(at, group);
        assert(groups_of(groups@) =~= all.take(at as int).push(model) + all.skip(at as int));
    }

    /// The slot of the axis that a column shows.
    fn slot_for(&self, query: &SliceQuery, layout: &Layout, key: &Vec<u32>, column: &str) -> (r:
        Option<usize>)
        requires
            layout.of(self@, query@),
        ensures
            as_place(r) == self@.slot_of(query@, key@, column@),
            r matches Some(slot) ==> slot < key@.len() && slot < layout.shown@.len(),
    {
        let known = if key.len() < layout.shown.len() {
            key.len()
        } else {
            layout.shown.len()
        };
        let mut n: usize = known;
        while n > 0
            invariant
                n <= known,
                known <= key@.len(),
                known <= layout.shown@.len(),
                known == (if key@.len() < layout.shown@.len() {
                    key@.len()
                } else {
                    layout.shown@.len()
                }),
                layout.of(self@, query@),
                self@.slot_named(query@, column@, known as int) == self@.slot_named(
                    query@,
                    column@,
                    n as int,
                ),
            decreases n,
        {
            let i = layout.shown[n - 1];
            assert(i < self@.dimension_names.len());
            assert(self@.dimension_names[i as int] == self.dimension_names@[i as int]@);
            if same(self.dimension_names[i].as_str(), column) {
                return Some(n - 1);
            }
            n -= 1;
        }
        match find_key(&query.column_dim_index, column) {
            Some(k) => match find_index(&layout.shown, query.column_dim_index[k].1) {
                Some(slot) => if slot < key.len() {
                    Some(slot)
                } else {
                    None
                },
                None => None,
            },
            None => None,
        }
    }

    fn column_for(
        &self,
        dims: &Vec<Dimension<N>>,
        query: &SliceQuery,
        layout: &Layout,
        group: &Group<N>,
        column: &str,
    ) -> (r: String)
        requires
            self@.fits(dims@.len()),
            layout.of(self@, query@),
        ensures
            r@ == self@.column_text(dims_of(dims@), query@, group@, column@),
    {
        match self.slot_for(query, layout, &group.key, column) {
            Some(slot) => {
                let i = layout.shown[slot];
                assert(i < self@.dimension_names.len());
                let at = self.dimensions[i];
                assert(at < dims@.len());
                return dims[at].get_name(group.key[slot]);
            },
            None => {},
        }
        if has_text(&query.requested_measures, column) || same(column, "value") {
            let name = match find_but_case(&query.requested_measures, column) {
                Some(k) => query.requested_measures[k].as_str(),
                None => column,
            };
            assert(keys(entries_of(group.measures@)) =~= keys(group@.measures));
            match find_key(&group.measures, name) {
                Some(k) => group.measures[k].1.shown(),
                None => "-".to_string(),
            }
        } else {
            "".to_string()
        }
    }

    /// The slice that `query` asks for.
    ///
    /// The cells that pass the filters are grouped by the axes, and the numbers
    /// of a group add up, in a cube that sums up each by the weights of its
    /// members. Rows come in the display order of the axes, whose dimensions
    /// are brought up to date first.
    pub fn query_slice(&self, dims: &mut Vec<Dimension<N>>, query: &SliceQuery) -> (r: Result<
        ResultSet,
        String,
    >)
        requires
            self@.fits(old(dims)@.len()),
        ensures
            dims_of(final(dims)@) == self@.dims_ensured(
                dims_of(old(dims)@),
                self@.dimensions.len() as int,
            ),
            match r {
                Ok(rows) => self@.slice(dims_of(final(dims)@), query@) == Ok::<
                    ResultModel,
                    Seq<char>,
                >(rows@),
                Err(e) => self@.slice(dims_of(final(dims)@), query@) == Err::<
                    ResultModel,
                    Seq<char>,
                >(e@),
            },
    {
        let ghost was = dims_of(dims@);
        let mut i: usize = 0;
        while i < self.dimensions.len()
            invariant
                i <= self.dimensions@.len(),
                self@.fits(dims@.len()),
                dims_of(dims@) == self@.dims_ensured(was, i as int),
            decreases self.dimensions@.len() - i,
        {
            let ghost before = dims_of(dims@);
            let slot = self.dimensions[i];
            assert(slot < dims@.len());
            dims[slot].ensure_display_order();
            assert(dims_of(dims@) =~= before.update(slot as int, before[slot as int].ensured()));
            i += 1;
        }
        let ghost models = dims_of(dims@);
        let filters = match self.filters_for(dims, query) {
            Ok(filters) => filters,
            Err(e) => {
                return Err(e);
            },
        };
        let ghost weights = weights_of(filters@);
        proof {
            self@.slice_filters_len(models, query@, self@.dimension_names.len() as int);
        }
        let layout = self.layout(query);
        let cells = self.store.scan_subcube(&filters);
        let ghost wanted = |p: Seq<u32>| admits(allowed_ids(filters@), p);
        let ghost cell_list = modelled_list(listed(cells@));
        proof {
            listing_of_models(self.store@, wanted, listed(cells@));
            assert(allowed_ids(filters@) =~= ids_let_through(weights));
            assert(wanted =~= |path: Seq<u32>| admits(ids_let_through(weights), path));
            assert forall|k: int| 0 <= k < cells@.len() implies (#[trigger] cells@[k]).0@.len()
                == self@.dimensions.len() by {
                assert(wanted(cell_list[k].0));
                assert(cell_list[k].0 == cells@[k].0@);
            }
        }
        let groups = self.group_cells(dims, query, &layout, &filters, &cells);
        let ghost all = groups_of(groups@);
        let ghost ranks = |key: Seq<u32>| self@.key_ranks(models, query@, key);
        let mut sorted: Vec<Group<N>> = Vec::new();
        let mut rest = groups;
        let ghost mut n: int = 0;
        assert(groups_of(sorted@) =~= groups_sorted(all.take(0), ranks));
        assert(all.skip(0) =~= all);
        while rest.len() > 0
            invariant
                self@.fits(dims@.len()),
                layout.of(self@, query@),
                models == dims_of(dims@),
                ranks == |key: Seq<u32>| self@.key_ranks(models, query@, key),
                0 <= n <= all.len(),
                groups_of(rest@) == all.skip(n),
                groups_of(sorted@) == groups_sorted(all.take(n), ranks),
            decreases rest@.len(),
        {
            let ghost before = groups_of(rest@);
            let group = rest.remove(0);
            proof {
                assert(before.len() == all.len() - n);
                assert(group@ == before[0]);
                assert(groups_of(rest@) =~= before.skip(1));
                assert(all.skip(n).skip(1) =~= all.skip(n + 1));
                assert(all.take(n + 1).drop_last() =~= all.take(n));
                n = n + 1;
            }
            self.insert_group(dims, query, &layout, &mut sorted, group);
        }
        assert(n == all.len());
        assert(all.take(n) =~= all);
        let ghost in_turn = groups_of(sorted@);
        let ghost lines = Seq::new(in_turn.len(), |k: int| self@.row(models, query@, in_turn[k]));
        let mut rows: Vec<Vec<String>> = Vec::new();
        let mut i: usize = 0;
        assert(rows_of(rows@) =~= lines.take(0));
        while i < sorted.len()
            invariant
                i <= sorted@.len(),
                self@.fits(dims@.len()),
                layout.of(self@, query@),
                models == dims_of(dims@),
                in_turn == groups_of(sorted@),
                lines == Seq::new(in_turn.len(), |k: int| self@.row(models, query@, in_turn[k])),
                rows_of(rows@) == lines.take(i as int),
            decreases sorted@.len() - i,
        {
            let ghost done = rows_of(rows@);
            let row = self.row_for(dims, query, &layout, &sorted[i]);
            let ghost line = texts(row@);
            rows.push(row);
            assert(line == lines[i as int]);
            assert(rows_of(rows@) =~= done.push(line));
            assert(rows_of(rows@) =~= lines.take(i as int + 1));
            i += 1;
        }
        assert(lines.take(i as int) =~= lines);
        Ok(ResultSet { headers: copy_texts(&query.output_columns), rows })
    }

    fn row_for(
        &self,
        dims: &Vec<Dimension<N>>,
        query: &SliceQuery,
        layout: &Layout,
        group: &Group<N>,
    ) -> (r: Vec<String>)
        requires
            self@.fits(dims@.len()),
            layout.of(self@, query@),
        ensures
            texts(r@) == self@.row(dims_of(dims@), query@, group@),
    {
        let ghost all = self@.row(dims_of(dims@), query@, group@);
        let mut row: Vec<String> = Vec::new();
        let mut i: usize = 0;
        assert(texts(row@) =~= all.take(0));
        while i < query.output_columns.len()
            invariant
                i <= query.output_columns@.len(),
                self@.fits(dims@.len()),
                layout.of(self@, query@),
                all == self@.row(dims_of(dims@), query@, group@),
                texts(row@) == all.take(i as int),
            decreases query.output_columns@.len() - i,
        {
            let ghost done = texts(row@);
            let column = query.output_columns[i].as_str();
            assert(query@.columns[i as int] == column@);
            row.push(self.column_for(dims, query, layout, group, column));
            assert(texts(row@) =~= done.push(all[i as int]));
            assert(texts(row@) =~= all.take(i as int + 1));
            i += 1;
        }
        assert(all.take(i as int) =~= all);
        row
    }
}

impl<N: Number> CubeModel<N> {
    /// Bringing display orders up to date adds no dimension.
    pub proof fn dims_ensured_len(self, dims: Seq<DimensionModel<N>>, n: int)
        requires
            self.fits(dims.len()),
            n <= self.dimensions.len(),
        ensures
            self.dims_ensured(dims, n).len() == dims.len(),
        decreases n,
    {
        if n > 0 {
            self.dims_ensured_len(dims, n - 1);
        }
    }

    proof fn slice_filters_stay_failed(
        self,
        dims: Seq<DimensionModel<N>>,
        query: SliceModel,
        n: int,
        end: int,
    )
        requires
            0 <= n <= end,
            self.slice_filters(dims, query, n) is Err,
        ensures
            self.slice_filters(dims, query, end) == self.slice_filters(dims, query, n),
        decreases end - n,
    {
        if n < end {
            self.slice_filters_stay_failed(dims, query, n + 1, end);
        }
    }

    proof fn slice_filters_len(self, dims: Seq<DimensionModel<N>>, query: SliceModel, n: int)
        requires
            n >= 0,
        ensures
            self.slice_filters(dims, query, n) matches Ok(filters) ==> filters.len() == n,
        decreases n,
    {
        if n > 0 {
            self.slice_filters_len(dims, query, n - 1);
        }
    }
}

} // verus!
