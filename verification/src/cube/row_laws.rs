//! What the rows of a slice show, and which cells they are made of.

use crate::cube::cube::{split, CubeModel};
use crate::cube::node::CellModel;
use crate::cube::slice::{
    combined, filter_weights, groups_sorted, ids_let_through, place_of_group, SliceModel,
};
use crate::cube::slice_laws::{place_of_group_is_first, sorting_groups_sorts};
use crate::cube::splash_laws::exact_arithmetic;
use crate::cube::sum_laws::{gathered_measures, measure_at};
use crate::dimension::dimension::DimensionModel;
use crate::number::Number;
use crate::storage::id_map::pairs_of;
use crate::storage::name_map::{keys, lookup, lookup_after_put};
use crate::storage::sparse_store::{admits, before_not_itself, is_listing, listing};
use crate::text::{place_but_case, place_but_case_finds, place_of_is_first, same_but_case};
use vstd::prelude::*;

verus! {

// ---------------------------------------------------------------------------
// Filters
// ---------------------------------------------------------------------------

/// The members that one value lets through, with their weights: the leaves below it in
/// a cube that sums up, itself by one in another.
pub open spec fn let_through_by<N: Number>(
    dim: DimensionModel<N>,
    is_aggregating: bool,
    value: Seq<char>,
) -> Map<u32, N> {
    let (hierarchy, member) = split(value);
    if is_aggregating {
        dim.leaf_weights(hierarchy, member)
    } else {
        match dim.id_in(hierarchy, member) {
            Some(id) => Map::empty().insert(id, N::one_spec()),
            None => Map::empty(),
        }
    }
}

/// The value at `i` is the last that lets the member through.
pub open spec fn last_to_let_through<N: Number>(
    dim: DimensionModel<N>,
    is_aggregating: bool,
    values: Seq<Seq<char>>,
    id: u32,
    i: int,
) -> bool {
    &&& 0 <= i < values.len()
    &&& let_through_by(dim, is_aggregating, values[i]).contains_key(id)
    &&& forall|j: int|
        i < j < values.len() ==> !let_through_by(
            dim,
            is_aggregating,
            #[trigger] values[j],
        ).contains_key(id)
}

/// A filter of several values lets through what any of them does, each member by the
/// weight of the last value that lets it through.
pub proof fn a_filter_lets_through_what_its_values_do<N: Number>(
    dim: DimensionModel<N>,
    is_aggregating: bool,
    values: Seq<Seq<char>>,
    id: u32,
)
    requires
        filter_weights(dim, is_aggregating, values) is Ok,
    ensures
        ({
            let weights = filter_weights(dim, is_aggregating, values)->Ok_0;
            &&& weights.contains_key(id) ==> exists|i: int| #[trigger]
                last_to_let_through(dim, is_aggregating, values, id, i) && weights[id]
                    == let_through_by(dim, is_aggregating, values[i])[id]
            &&& !weights.contains_key(id) ==> forall|i: int|
                0 <= i < values.len() ==> !let_through_by(
                    dim,
                    is_aggregating,
                    #[trigger] values[i],
                ).contains_key(id)
        }),
    decreases values.len(),
{
    if values.len() > 0 {
        let rest = values.drop_last();
        let last = values.len() - 1;
        a_filter_lets_through_what_its_values_do(dim, is_aggregating, rest, id);
        let weights = filter_weights(dim, is_aggregating, values)->Ok_0;
        let before = filter_weights(dim, is_aggregating, rest)->Ok_0;
        let own = let_through_by(dim, is_aggregating, values[last]);
        assert(weights =~= before.union_prefer_right(own));
        if own.contains_key(id) {
            assert(last_to_let_through(dim, is_aggregating, values, id, last));
        } else if before.contains_key(id) {
            let i = choose|i: int| #[trigger]
                last_to_let_through(dim, is_aggregating, rest, id, i) && before[id]
                    == let_through_by(dim, is_aggregating, rest[i])[id];
            assert forall|j: int| i < j < values.len() implies !let_through_by(
                dim,
                is_aggregating,
                #[trigger] values[j],
            ).contains_key(id) by {
                if j < last {
                    assert(rest[j] == values[j]);
                }
            }
            assert(last_to_let_through(dim, is_aggregating, values, id, i));
        } else {
            assert forall|i: int| 0 <= i < values.len() implies !let_through_by(
                dim,
                is_aggregating,
                #[trigger] values[i],
            ).contains_key(id) by {
                if i < last {
                    assert(rest[i] == values[i]);
                }
            }
        }
    }
}

/// A filter can be had where each of its values lets something through.
pub proof fn a_filter_needs_known_values<N: Number>(
    dim: DimensionModel<N>,
    is_aggregating: bool,
    values: Seq<Seq<char>>,
)
    ensures
        filter_weights(dim, is_aggregating, values) is Ok == (forall|i: int|
            0 <= i < values.len() ==> (if is_aggregating {
                pairs_of(let_through_by(dim, true, #[trigger] values[i])).len() > 0
            } else {
                dim.id_in(split(values[i]).0, split(values[i]).1) is Some
            })),
    decreases values.len(),
{
    if values.len() > 0 {
        let rest = values.drop_last();
        a_filter_needs_known_values(dim, is_aggregating, rest);
        assert forall|i: int| 0 <= i < rest.len() implies rest[i] == #[trigger] values[i] by {}
        if filter_weights(dim, is_aggregating, values) is Ok {
            assert forall|i: int| 0 <= i < values.len() implies (if is_aggregating {
                pairs_of(let_through_by(dim, true, #[trigger] values[i])).len() > 0
            } else {
                dim.id_in(split(values[i]).0, split(values[i]).1) is Some
            }) by {
                if i < rest.len() {
                    assert(rest[i] == values[i]);
                }
            }
        } else {
            if forall|i: int|
                0 <= i < values.len() ==> (if is_aggregating {
                    pairs_of(let_through_by(dim, true, #[trigger] values[i])).len() > 0
                } else {
                    dim.id_in(split(values[i]).0, split(values[i]).1) is Some
                }) {
                assert forall|i: int| 0 <= i < rest.len() implies (if is_aggregating {
                    pairs_of(let_through_by(dim, true, #[trigger] rest[i])).len() > 0
                } else {
                    dim.id_in(split(rest[i]).0, split(rest[i]).1) is Some
                }) by {
                    assert(rest[i] == values[i]);
                }
                let v = values[values.len() - 1];
                assert(is_aggregating ==> pairs_of(let_through_by(dim, true, v)).len() > 0);
            }
        }
    }
}

// ---------------------------------------------------------------------------
// Rows
// ---------------------------------------------------------------------------

impl<N: Number> CubeModel<N> {
    /// The cells that the filters let through.
    pub open spec fn let_through(self, filters: Seq<Option<Map<u32, N>>>) -> Seq<
        (Seq<u32>, CellModel<N>),
    > {
        listing(self.cells, |path: Seq<u32>| admits(ids_let_through(filters), path))
    }

    /// The cells that the filters let through can be listed.
    pub open spec fn can_list(self, filters: Seq<Option<Map<u32, N>>>) -> bool {
        is_listing(
            self.cells,
            |path: Seq<u32>| admits(ids_let_through(filters), path),
            self.let_through(filters),
        )
    }

    /// Each group of cells is one row of the slice, and there are no other rows.
    pub proof fn each_group_is_a_row(
        self,
        dims: Seq<DimensionModel<N>>,
        query: SliceModel,
        filters: Seq<Option<Map<u32, N>>>,
    )
        ensures
            ({
                let groups = self.grouped(dims, query, filters, self.let_through(filters));
                let rows = self.sliced(dims, query, filters).rows;
                &&& rows.len() == groups.len()
                &&& forall|g: int|
                    0 <= g < groups.len() ==> exists|r: int|
                        0 <= r < rows.len() && #[trigger] rows[r] == self.row(
                            dims,
                            query,
                            #[trigger] groups[g],
                        )
                &&& forall|r: int|
                    0 <= r < rows.len() ==> exists|g: int|
                        0 <= g < groups.len() && #[trigger] rows[r] == self.row(
                            dims,
                            query,
                            #[trigger] groups[g],
                        )
            }),
    {
        broadcast use vstd::seq_lib::group_to_multiset_ensures;

        let groups = self.grouped(dims, query, filters, self.let_through(filters));
        let ranks = |key: Seq<u32>| self.key_ranks(dims, query, key);
        sorting_groups_sorts(groups, ranks, self.shown_axes(query).len());
        let sorted = groups_sorted(groups, ranks);
        let rows = self.sliced(dims, query, filters).rows;
        assert(sorted.to_multiset().len() == sorted.len());
        assert(groups.to_multiset().len() == groups.len());
        assert forall|g: int| 0 <= g < groups.len() implies exists|r: int|
            0 <= r < rows.len() && #[trigger] rows[r] == self.row(
                dims,
                query,
                #[trigger] groups[g],
            ) by {
            assert(groups.contains(groups[g]));
            assert(groups.to_multiset().count(groups[g]) > 0);
            assert(sorted.contains(groups[g]));
            let r = choose|r: int| 0 <= r < sorted.len() && sorted[r] == groups[g];
            assert(rows[r] == self.row(dims, query, groups[g]));
        }
        assert forall|r: int| 0 <= r < rows.len() implies exists|g: int|
            0 <= g < groups.len() && #[trigger] rows[r] == self.row(
                dims,
                query,
                #[trigger] groups[g],
            ) by {
            assert(sorted.contains(sorted[r]));
            assert(sorted.to_multiset().count(sorted[r]) > 0);
            assert(groups.contains(sorted[r]));
            let g = choose|g: int| 0 <= g < groups.len() && groups[g] == sorted[r];
            assert(rows[r] == self.row(dims, query, groups[g]));
        }
    }

    /// The column shows that measure.
    pub open spec fn shows_measure(
        self,
        query: SliceModel,
        key: Seq<u32>,
        column: Seq<char>,
        name: Seq<char>,
    ) -> bool {
        &&& self.slot_of(query, key, column) is None
        &&& query.measures.contains(column) || column == "value"@
        &&& name == (match place_but_case(query.measures, column) {
            Some(k) => query.measures[k],
            None => column,
        })
    }

    /// What a group has under a measure is shown in a row of its own, in each column of
    /// that measure.
    pub proof fn a_measure_is_shown(
        self,
        dims: Seq<DimensionModel<N>>,
        query: SliceModel,
        filters: Seq<Option<Map<u32, N>>>,
        key: Seq<u32>,
        name: Seq<char>,
        c: int,
    )
        requires
            measure_at(
                self.grouped(dims, query, filters, self.let_through(filters)),
                key,
                name,
            ) is Some,
            0 <= c < query.columns.len(),
            self.shows_measure(query, key, query.columns[c], name),
        ensures
            ({
                let groups = self.grouped(dims, query, filters, self.let_through(filters));
                let rows = self.sliced(dims, query, filters).rows;
                exists|r: int, g: int|
                    0 <= r < rows.len() && 0 <= g < groups.len() && (#[trigger] groups[g]).key == key
                        && #[trigger] rows[r] == self.row(dims, query, groups[g]) && rows[r][c]
                        == measure_at(groups, key, name)->0.shown()
            }),
    {
        let groups = self.grouped(dims, query, filters, self.let_through(filters));
        let rows = self.sliced(dims, query, filters).rows;
        place_of_group_is_first(groups, key);
        let g = place_of_group(groups, key)->0;
        self.each_group_is_a_row(dims, query, filters);
        let r = choose|r: int|
            0 <= r < rows.len() && #[trigger] rows[r] == self.row(dims, query, groups[g]);
        assert(groups[g].key == key && rows[r] == self.row(dims, query, groups[g]));
        assert(rows[r][c] == self.column_text(dims, query, groups[g], query.columns[c]));
    }

    /// A row in which no cell goes under a measure shows a dash in the columns of that
    /// measure.
    pub proof fn a_measure_without_cells_is_a_dash(
        self,
        dims: Seq<DimensionModel<N>>,
        query: SliceModel,
        filters: Seq<Option<Map<u32, N>>>,
        key: Seq<u32>,
        name: Seq<char>,
        g: int,
        c: int,
    )
        requires
            forall|i: int|
                0 <= i < self.let_through(filters).len() ==> !self.belongs(
                    dims,
                    query,
                    (#[trigger] self.let_through(filters)[i]).0,
                    key,
                    name,
                ),
            0 <= g < self.grouped(dims, query, filters, self.let_through(filters)).len(),
            self.grouped(dims, query, filters, self.let_through(filters))[g].key == key,
            0 <= c < query.columns.len(),
            self.shows_measure(query, key, query.columns[c], name),
        ensures
            self.row(
                dims,
                query,
                self.grouped(dims, query, filters, self.let_through(filters))[g],
            )[c] == "-"@,
    {
        self.no_cell_no_measure(dims, query, filters, self.let_through(filters), key, name, g);
    }

    proof fn no_cell_no_measure(
        self,
        dims: Seq<DimensionModel<N>>,
        query: SliceModel,
        filters: Seq<Option<Map<u32, N>>>,
        cells: Seq<(Seq<u32>, CellModel<N>)>,
        key: Seq<u32>,
        name: Seq<char>,
        g: int,
    )
        requires
            forall|i: int|
                0 <= i < cells.len() ==> !self.belongs(
                    dims,
                    query,
                    (#[trigger] cells[i]).0,
                    key,
                    name,
                ),
            0 <= g < self.grouped(dims, query, filters, cells).len(),
            self.grouped(dims, query, filters, cells)[g].key == key,
        ensures
            lookup(self.grouped(dims, query, filters, cells)[g].measures, name) is None,
        decreases cells.len(),
    {
        if cells.len() > 0 {
            let rest = cells.drop_last();
            let before = self.grouped(dims, query, filters, rest);
            let (coords, base) = cells.last();
            let at = self.row_key(query, coords);
            let under = self.measure_name(dims, query, coords);
            let value = self.weighted(filters, coords, base, self.dimensions.len() as int);
            assert forall|i: int| 0 <= i < rest.len() implies !self.belongs(
                dims,
                query,
                (#[trigger] rest[i]).0,
                key,
                name,
            ) by {
                assert(rest[i] == cells[i]);
            }
            assert(!self.belongs(dims, query, cells[cells.len() - 1].0, key, name));
            place_of_group_is_first(before, at);
            if g < before.len() {
                self.no_cell_no_measure(dims, query, filters, rest, key, name, g);
                if place_of_group(before, at) == Some(g) {
                    let existing = match lookup(before[g].measures, under) {
                        Some(cell) => cell,
                        None => CellModel::Numeric(N::zero_spec()),
                    };
                    lookup_after_put(before[g].measures, under, combined(existing, value), name);
                }
            } else {
                let none = Seq::<(Seq<char>, CellModel<N>)>::empty();
                let first = combined(CellModel::Numeric(N::zero_spec()), value);
                lookup_after_put(none, under, first, name);
                place_of_is_first(keys(none), under);
                place_of_is_first(keys(none), name);
            }
        }
    }

    /// Where one cell of a list goes into a row under a measure and no other does, it is
    /// what the row has there.
    proof fn a_lone_cell(
        self,
        dims: Seq<DimensionModel<N>>,
        query: SliceModel,
        filters: Seq<Option<Map<u32, N>>>,
        cells: Seq<(Seq<u32>, CellModel<N>)>,
        key: Seq<u32>,
        name: Seq<char>,
        at: int,
    )
        requires
            exact_arithmetic::<N>(),
            0 <= at < cells.len(),
            self.belongs(dims, query, cells[at].0, key, name),
            forall|i: int|
                0 <= i < cells.len() && i != at ==> !self.belongs(
                    dims,
                    query,
                    (#[trigger] cells[i]).0,
                    key,
                    name,
                ),
        ensures
            measure_at(self.grouped(dims, query, filters, cells), key, name) == Some(
                self.weighted(filters, cells[at].0, cells[at].1, self.dimensions.len() as int),
            ),
        decreases cells.len(),
    {
        let rest = cells.drop_last();
        let last = cells.len() - 1;
        assert forall|i: int| 0 <= i < rest.len() && i != at implies !self.belongs(
            dims,
            query,
            (#[trigger] rest[i]).0,
            key,
            name,
        ) by {
            assert(rest[i] == cells[i]);
        }
        let (coords, base) = cells[last];
        if at == last {
            self.no_cell(dims, query, filters, rest, key, name);
        } else {
            assert(rest[at] == cells[at]);
            self.a_lone_cell(dims, query, filters, rest, key, name, at);
            assert(!self.belongs(dims, query, cells[last].0, key, name));
        }
        self.one_group_for_each_key(dims, query, filters, rest);
        gathered_measures(
            self.grouped(dims, query, filters, rest),
            self.row_key(query, coords),
            self.measure_name(dims, query, coords),
            self.weighted(filters, coords, base, self.dimensions.len() as int),
            key,
            name,
        );
    }

    /// Where no cell of a list goes into a row under a measure, the row has nothing
    /// there.
    proof fn no_cell(
        self,
        dims: Seq<DimensionModel<N>>,
        query: SliceModel,
        filters: Seq<Option<Map<u32, N>>>,
        cells: Seq<(Seq<u32>, CellModel<N>)>,
        key: Seq<u32>,
        name: Seq<char>,
    )
        requires
            forall|i: int|
                0 <= i < cells.len() ==> !self.belongs(
                    dims,
                    query,
                    (#[trigger] cells[i]).0,
                    key,
                    name,
                ),
        ensures
            measure_at(self.grouped(dims, query, filters, cells), key, name) is None,
        decreases cells.len(),
    {
        if cells.len() > 0 {
            let rest = cells.drop_last();
            let last = cells.len() - 1;
            assert forall|i: int| 0 <= i < rest.len() implies !self.belongs(
                dims,
                query,
                (#[trigger] rest[i]).0,
                key,
                name,
            ) by {
                assert(rest[i] == cells[i]);
            }
            let (coords, base) = cells[last];
            assert(!self.belongs(dims, query, cells[last].0, key, name));
            self.no_cell(dims, query, filters, rest, key, name);
            self.one_group_for_each_key(dims, query, filters, rest);
            gathered_measures(
                self.grouped(dims, query, filters, rest),
                self.row_key(query, coords),
                self.measure_name(dims, query, coords),
                self.weighted(filters, coords, base, self.dimensions.len() as int),
                key,
                name,
            );
        }
    }

    /// In a cube that does not sum up, a cell that is alone in its row under its measure
    /// is shown there as it is stored.
    pub proof fn a_stored_cell_is_shown(
        self,
        dims: Seq<DimensionModel<N>>,
        query: SliceModel,
        filters: Seq<Option<Map<u32, N>>>,
        path: Seq<u32>,
        c: int,
    )
        requires
            exact_arithmetic::<N>(),
            !self.is_aggregating,
            self.can_list(filters),
            self.cells.contains_key(path),
            admits(ids_let_through(filters), path),
            forall|other: Seq<u32>| #[trigger]
                self.cells.contains_key(other) && admits(ids_let_through(filters), other)
                    && self.belongs(
                    dims,
                    query,
                    other,
                    self.row_key(query, path),
                    self.measure_name(dims, query, path),
                ) ==> other == path,
            0 <= c < query.columns.len(),
            self.shows_measure(
                query,
                self.row_key(query, path),
                query.columns[c],
                self.measure_name(dims, query, path),
            ),
        ensures
            ({
                let groups = self.grouped(dims, query, filters, self.let_through(filters));
                let rows = self.sliced(dims, query, filters).rows;
                exists|r: int, g: int|
                    0 <= r < rows.len() && 0 <= g < groups.len() && (#[trigger] groups[g]).key
                        == self.row_key(query, path) && #[trigger] rows[r] == self.row(
                        dims,
                        query,
                        groups[g],
                    ) && rows[r][c] == self.cells[path].shown()
            }),
    {
        let cells = self.let_through(filters);
        let key = self.row_key(query, path);
        let name = self.measure_name(dims, query, path);
        let wanted = |path: Seq<u32>| admits(ids_let_through(filters), path);
        assert(wanted(path));
        let at = choose|i: int| 0 <= i < cells.len() && #[trigger] cells[i].0 == path;
        assert(cells[at].1 == self.cells[path]);
        assert forall|i: int| 0 <= i < cells.len() && i != at implies !self.belongs(
            dims,
            query,
            (#[trigger] cells[i]).0,
            key,
            name,
        ) by {
            assert(wanted(cells[i].0));
            assert(self.cells.contains_key(cells[i].0));
            before_not_itself(path);
            if cells[i].0 == path {
                if i < at {
                    assert(crate::storage::sparse_store::before(cells[i].0, cells[at].0));
                } else {
                    assert(crate::storage::sparse_store::before(cells[at].0, cells[i].0));
                }
            }
        }
        self.what_is_not_summed_up_is_not_weighed(
            filters,
            path,
            self.cells[path],
            self.dimensions.len() as int,
        );
        self.a_lone_cell(dims, query, filters, cells, key, name, at);
        self.a_measure_is_shown(dims, query, filters, key, name, c);
    }
}

// ---------------------------------------------------------------------------
// Where a cell goes
// ---------------------------------------------------------------------------

impl<N: Number> CubeModel<N> {
    /// Where measures become columns, a cell goes under its own measure: the one asked
    /// for that is its member in the dimension of the measures, in any case.
    pub proof fn a_cell_goes_under_its_measure(
        self,
        dims: Seq<DimensionModel<N>>,
        query: SliceModel,
        coords: Seq<u32>,
    )
        requires
            self.pivot(query) is Some,
        ensures
            ({
                let member = self.dim(dims, self.pivot(query)->0).name_of(
                    coords[self.pivot(query)->0],
                );
                let name = self.measure_name(dims, query, coords);
                &&& same_but_case(name, member)
                &&& (exists|k: int|
                    0 <= k < query.measures.len() && same_but_case(
                        #[trigger] query.measures[k],
                        member,
                    )) ==> query.measures.contains(name)
            }),
    {
        let member = self.dim(dims, self.pivot(query)->0).name_of(coords[self.pivot(query)->0]);
        place_but_case_finds(query.measures, member);
    }

    /// Two cells go into one row exactly if they have the same member in every dimension
    /// that is shown and, where measures neither are shown nor become columns, the same
    /// measure.
    pub proof fn rows_part_by_members(self, query: SliceModel, a: Seq<u32>, b: Seq<u32>)
        ensures
            (self.row_key(query, a) == self.row_key(query, b)) == ((forall|slot: int|
                0 <= slot < self.shown_axes(query).len() ==> a[(#[trigger] self.shown_axes(
                    query,
                )[slot]) as int] == b[self.shown_axes(query)[slot] as int]) && (
            self.measure_place() matches Some(m) && self.pivot(query) is None && !self.shown_axes(
                query,
            ).contains(m as usize) ==> a[self.measure_place()->0] == b[self.measure_place()->0])),
    {
        let shown = self.shown_axes(query);
        let (ka, kb) = (self.row_key(query, a), self.row_key(query, b));
        if ka == kb {
            assert forall|slot: int| 0 <= slot < shown.len() implies a[(
            #[trigger] shown[slot]) as int] == b[shown[slot] as int] by {
                assert(ka[slot] == kb[slot]);
            }
            match self.measure_place() {
                Some(m) => {
                    if self.pivot(query) is None && !shown.contains(m as usize) {
                        assert(ka[shown.len() as int] == kb[shown.len() as int]);
                    }
                },
                None => {},
            }
        } else {
            if (forall|slot: int|
                0 <= slot < shown.len() ==> a[(#[trigger] shown[slot]) as int]
                    == b[shown[slot] as int]) && (self.measure_place() matches Some(m)
                && self.pivot(query) is None && !shown.contains(m as usize) ==> a[self.measure_place()->0]
                == b[self.measure_place()->0]) {
                assert(ka =~= kb);
            }
        }
    }
}

} // verus!
