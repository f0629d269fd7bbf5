//! What holds of statements.

use crate::catalog::catalog::CatalogModel;
use crate::cube::cube::CubeModel;
use crate::cube::laws::is_unqualified;
use crate::cube::node::CellModel;
use crate::dimension::dimension::{each, DimensionModel};
use crate::dimension::hierarchy::HierarchyModel;
use crate::engine::sql::{
    inserted_into, row_inserted, rows_inserted, selected, table_created, unquoted, InsertModel,
};
use crate::engine::syntax::QueryModel;
use crate::number::Number;
use crate::storage::name_map::keys;
use crate::text::{lowercase, place_of_is_first, without};
use vstd::prelude::*;

verus! {

/// A dimension without its display orders.
pub open spec fn unordered<N: Number>(dim: DimensionModel<N>) -> DimensionModel<N> {
    DimensionModel {
        hierarchies: each(
            dim.hierarchies,
            |h: HierarchyModel<N>| HierarchyModel { order: Seq::empty(), stale: true, ..h },
        ),
        ..dim
    }
}

/// The dimensions differ in their display orders at most.
pub open spec fn same_but_order<N: Number>(
    a: Seq<DimensionModel<N>>,
    b: Seq<DimensionModel<N>>,
) -> bool {
    a.len() == b.len() && forall|d: int|
        0 <= d < a.len() ==> #[trigger] unordered(a[d]) == unordered(b[d])
}

proof fn ensuring_only_orders<N: Number>(cube: CubeModel<N>, dims: Seq<DimensionModel<N>>, n: int)
    requires
        cube.fits(dims.len()),
        n <= cube.dimensions.len(),
    ensures
        same_but_order(cube.dims_ensured(dims, n), dims),
    decreases n,
{
    if n > 0 {
        ensuring_only_orders(cube, dims, n - 1);
        let before = cube.dims_ensured(dims, n - 1);
        let after = cube.dims_ensured(dims, n);
        assert(cube.dimensions[n - 1] < dims.len());
        let slot = cube.dimensions[n - 1] as int;
        assert(unordered(before[slot].ensured()).hierarchies =~= unordered(
            before[slot],
        ).hierarchies);
        assert(unordered(before[slot].ensured()) =~= unordered(before[slot]));
        assert forall|d: int| 0 <= d < after.len() implies #[trigger] unordered(after[d])
            == unordered(dims[d]) by {
            assert(unordered(before[d]) == unordered(dims[d]));
        }
    }
}

/// A query changes no cell of any cube, and of the dimensions only the display
/// orders.
pub proof fn queries_change_no_data<N: Number>(catalog: CatalogModel<N>, query: QueryModel)
    requires
        catalog.valid(),
    ensures
        selected(catalog, query).0.cubes == catalog.cubes,
        same_but_order(selected(catalog, query).0.dims, catalog.dims),
{
    match query.table() {
        Some(Some(name)) => {
            place_of_is_first(keys(catalog.cubes), lowercase(name));
            match catalog.cube_place(name) {
                Some(place) => {
                    let cube = catalog.cubes[place].1;
                    assert(catalog.cubes[place].1.fits(catalog.dims.len()));
                    let dims = cube.dims_ensured(catalog.dims, cube.dimensions.len() as int);
                    ensuring_only_orders(cube, catalog.dims, cube.dimensions.len() as int);
                    match query.joined() {
                        Some(Some(other_name)) => {
                            place_of_is_first(keys(catalog.cubes), lowercase(other_name));
                            match catalog.cube_place(other_name) {
                                Some(at) => {
                                    let other = catalog.cubes[at].1;
                                    assert(catalog.cubes[at].1.fits(catalog.dims.len()));
                                    let count = other.dimensions.len() as int;
                                    ensuring_only_orders(other, dims, count);
                                    orders_in_turn(
                                        other.dims_ensured(dims, count),
                                        dims,
                                        catalog.dims,
                                    );
                                },
                                None => {},
                            }
                        },
                        _ => {},
                    }
                },
                None => {},
            }
        },
        _ => {},
    }
}

proof fn orders_in_turn<N: Number>(
    a: Seq<DimensionModel<N>>,
    b: Seq<DimensionModel<N>>,
    c: Seq<DimensionModel<N>>,
)
    requires
        same_but_order(a, b),
        same_but_order(b, c),
    ensures
        same_but_order(a, c),
{
    assert forall|d: int| 0 <= d < a.len() implies #[trigger] unordered(a[d]) == unordered(c[d]) by {
        assert(unordered(b[d]) == unordered(c[d]));
    }
}

/// A cube that is there is not made anew, in whatever case its name is written:
/// the statement is refused and the database stays as it is.
pub proof fn no_cube_is_replaced<N: Number>(
    catalog: CatalogModel<N>,
    name: Seq<char>,
    existing: Seq<char>,
    columns: Seq<(Seq<char>, Seq<char>)>,
    is_aggregating: bool,
)
    requires
        catalog.cube(existing) is Some,
        lowercase(existing) == lowercase(name),
    ensures
        table_created(catalog, name, columns, is_aggregating) == (
            catalog,
            Err::<Seq<char>, Seq<char>>("Cube '"@ + name + "' already exists."@),
        ),
{
}

/// The value of a row that was inserted at members without qualifiers is read back
/// at them, unless it is a number that was spread over the leaves below.
pub proof fn inserted_row_is_read<N: Number>(
    catalog: CatalogModel<N>,
    name: Seq<char>,
    row: Seq<Seq<char>>,
)
    requires
        catalog.valid(),
        catalog.cube(name) is Some,
        ({
            let cube = catalog.cube(name)->0;
            let members = unquoted(row.take(row.len() - 1));
            &&& row.len() == cube.dimension_names.len() + 1
            &&& CubeModel::<N>::room_for(catalog.dims, members.len())
            &&& forall|i: int| 0 <= i < members.len() ==> is_unqualified(#[trigger] members[i])
            &&& CellModel::<N>::read(row.last(), without(row.last(), '\'')) is Numeric
                ==> forall|i: int|
                0 <= i < members.len() ==> !#[trigger] cube.names_aggregate(
                    catalog.dims,
                    members,
                    i,
                )
        }),
    ensures
        ({
            let members = unquoted(row.take(row.len() - 1));
            let (after, outcome) = inserted_into(catalog, name, Some(seq![row]));
            &&& outcome is Ok
            &&& after.cube(name) matches Some(cube) && cube.cell_at(after.dims, members) == Some(
                CellModel::<N>::read(row.last(), without(row.last(), '\'')),
            )
        }),
{
    let place = catalog.cube_place(name)->0;
    place_of_is_first(keys(catalog.cubes), lowercase(name));
    let cube = catalog.cubes[place].1;
    assert(catalog.cubes[place].1.fits(catalog.dims.len()));
    let members = unquoted(row.take(row.len() - 1));
    let value = CellModel::<N>::read(row.last(), without(row.last(), '\''));
    let rows = seq![row];
    let (after, outcome) = inserted_into(catalog, name, Some(rows));
    let start = InsertModel { rows: 0, spread: 0 };
    assert(rows_inserted(cube, catalog.dims, rows, 0) == (
        cube,
        catalog.dims,
        Ok::<InsertModel, Seq<char>>(start),
    ));
    assert(rows_inserted(cube, catalog.dims, rows, 1) == row_inserted(
        cube,
        catalog.dims,
        row,
        start,
    ));
    cube.written_cell_is_read(catalog.dims, members, value);
    assert(keys(after.cubes) =~= keys(catalog.cubes));
}

} // verus!
