//! What is read back of rows that were inserted.

use crate::catalog::catalog::CatalogModel;
use crate::cube::cube::{product, total_square, CubeModel, SplashMode};
use crate::cube::laws::is_unqualified;
use crate::cube::node::CellModel;
use crate::cube::splash_laws::exact_arithmetic;
use crate::dimension::dimension::DimensionModel;
use crate::engine::sql::{
    insert_news, inserted_into, row_inserted, rows_inserted, unquoted, InsertModel,
};
use crate::number::Number;
use crate::storage::name_map::keys;
use crate::text::{lowercase, place_of_is_first, without};
use vstd::prelude::*;

verus! {

/// The members of a row: all of it but the last.
pub open spec fn row_members(row: Seq<Seq<char>>) -> Seq<Seq<char>> {
    unquoted(row.take(row.len() - 1))
}

/// The value of a row: the last of it.
pub open spec fn row_value<N: Number>(row: Seq<Seq<char>>) -> CellModel<N> {
    CellModel::<N>::read(row.last(), without(row.last(), '\''))
}

/// The row is for the cube, which takes its members: some are aggregates, or none has
/// a qualifier.
pub open spec fn row_fits<N: Number>(
    cube: CubeModel<N>,
    dims: Seq<DimensionModel<N>>,
    row: Seq<Seq<char>>,
) -> bool {
    let members = row_members(row);
    &&& row.len() == cube.dimension_names.len() + 1
    &&& cube.takes(dims, members)
    &&& cube.at_aggregate(dims, members) || forall|i: int|
        0 <= i < members.len() ==> is_unqualified(#[trigger] members[i])
}

/// Where a number goes: it is stored in place of what is there.
proof fn a_number_is_splashed<N: Number>(
    cube: CubeModel<N>,
    dims: Seq<DimensionModel<N>>,
    row: Seq<Seq<char>>,
    done: InsertModel,
)
    requires
        row_fits(cube, dims, row),
        row_value::<N>(row) is Numeric,
    ensures
        ({
            let number = row_value::<N>(row)->Numeric_0;
            let (after, dims_after, outcome) = cube.splashed(
                dims,
                row_members(row),
                number,
                SplashMode::Replace,
            );
            let inserted = row_inserted(cube, dims, row, done);
            &&& inserted.0 == after
            &&& inserted.1 == dims_after
            &&& inserted.2 is Ok == outcome is Ok
        }),
{
    let members = row_members(row);
    assert(row.take(row.len() - 1) == row.take(cube.dimension_names.len() as int));
    if !cube.at_aggregate(dims, members) {
        cube.splashing_at_leaves_is_writing(
            dims,
            members,
            row_value::<N>(row)->Numeric_0,
            SplashMode::Replace,
        );
    }
}

/// A number that was inserted at some members is what the cells then add up to there,
/// whatever they held before.
///
/// The arithmetic has to be exact; where one of the members is an aggregate, the number
/// has to be divisible by the sum of the squares of the weights below.
pub proof fn inserted_number_is_the_sum<N: Number>(
    cube: CubeModel<N>,
    dims: Seq<DimensionModel<N>>,
    row: Seq<Seq<char>>,
    done: InsertModel,
)
    requires
        exact_arithmetic::<N>(),
        row_fits(cube, dims, row),
        row_value::<N>(row) is Numeric,
        row_inserted(cube, dims, row, done).2 is Ok,
        cube.spread(dims, row_members(row)).1 matches Ok((lists, true)) ==> {
            let total = total_square(product(lists));
            row_value::<N>(row)->Numeric_0.over_spec(total).times_spec(total)
                == row_value::<N>(row)->Numeric_0
        },
    ensures
        ({
            let (after, dims_after, _) = row_inserted(cube, dims, row, done);
            after.computed(dims_after, row_members(row)) == row_value::<N>(row)->Numeric_0
        }),
{
    a_number_is_splashed(cube, dims, row, done);
    cube.splashed_number_is_read_back(
        dims,
        row_members(row),
        row_value::<N>(row)->Numeric_0,
    );
}

/// Inserting a row a second time changes nothing.
pub proof fn inserting_again_changes_nothing<N: Number>(
    cube: CubeModel<N>,
    dims: Seq<DimensionModel<N>>,
    row: Seq<Seq<char>>,
    done: InsertModel,
    again: InsertModel,
)
    requires
        exact_arithmetic::<N>(),
        row_fits(cube, dims, row),
        CubeModel::<N>::room_for(dims, row.len()),
        row_inserted(cube, dims, row, done).2 is Ok,
    ensures
        ({
            let (after, dims_after, _) = row_inserted(cube, dims, row, done);
            let second = row_inserted(after, dims_after, row, again);
            &&& second.0 == after
            &&& second.1 == dims_after
            &&& second.2 is Ok
        }),
{
    let members = row_members(row);
    let value = row_value::<N>(row);
    let n = members.len() as int;
    assert(row.take(row.len() - 1) == row.take(cube.dimension_names.len() as int));
    let (after, dims_after, _) = row_inserted(cube, dims, row, done);
    if value is Numeric {
        let number = value->Numeric_0;
        a_number_is_splashed(cube, dims, row, done);
        cube.splashing_again_changes_nothing(dims, members, number);
        cube.spreading_leaves_room(dims, members, 1);
        assert(members.take(n) =~= members);
        cube.spread_is_resolved(dims, members, n);
        assert forall|i: int| 0 <= i < members.len() implies after.reaches(
            dims_after,
            i,
            #[trigger] members[i],
        ) by {
            assert(cube.reaches(dims_after, i, members[i]));
            assert(after.dim(dims_after, i) == cube.dim(dims_after, i));
        }
        assert forall|i: int| 0 <= i < members.len() implies #[trigger] after.names_aggregate(
            dims_after,
            members,
            i,
        ) == cube.names_aggregate(dims, members, i) by {
            assert(cube.names_aggregate(dims_after, members, i) == cube.names_aggregate(
                dims,
                members,
                i,
            ));
            assert(after.dim(dims_after, i) == cube.dim(dims_after, i));
        }
        if cube.at_aggregate(dims, members) {
            let i = choose|i: int|
                0 <= i < members.len() && #[trigger] cube.names_aggregate(dims, members, i);
            assert(after.names_aggregate(dims_after, members, i));
        }
        assert(row_fits(after, dims_after, row));
        a_number_is_splashed(after, dims_after, row, again);
    } else {
        cube.writing_again_changes_nothing(dims, members, value);
    }
}

/// Rows that are inserted together are inserted one after the other.
pub proof fn rows_go_in_turn<N: Number>(
    cube: CubeModel<N>,
    dims: Seq<DimensionModel<N>>,
    rows: Seq<Seq<Seq<char>>>,
    more: Seq<Seq<Seq<char>>>,
    n: int,
)
    requires
        rows_inserted(cube, dims, rows, rows.len() as int).2 is Ok,
        0 <= n <= more.len(),
    ensures
        ({
            let (first, dims_first, _) = rows_inserted(cube, dims, rows, rows.len() as int);
            let both = rows_inserted(cube, dims, rows + more, rows.len() + n);
            let second = rows_inserted(first, dims_first, more, n);
            &&& both.0 == second.0
            &&& both.1 == second.1
            &&& both.2 is Ok == second.2 is Ok
        }),
    decreases n,
{
    let whole = rows + more;
    if n == 0 {
        same_rows(cube, dims, whole, rows, rows.len() as int);
    } else {
        rows_go_in_turn(cube, dims, rows, more, n - 1);
        assert(whole[rows.len() + n - 1] == more[n - 1]);
    }
}

proof fn same_rows<N: Number>(
    cube: CubeModel<N>,
    dims: Seq<DimensionModel<N>>,
    a: Seq<Seq<Seq<char>>>,
    b: Seq<Seq<Seq<char>>>,
    n: int,
)
    requires
        0 <= n <= a.len(),
        n <= b.len(),
        forall|i: int| 0 <= i < n ==> a[i] == b[i],
    ensures
        rows_inserted(cube, dims, a, n) == rows_inserted(cube, dims, b, n),
    decreases n,
{
    if n > 0 {
        same_rows(cube, dims, a, b, n - 1);
    }
}

/// The rows that were inserted are all that were given.
proof fn rows_are_counted<N: Number>(
    cube: CubeModel<N>,
    dims: Seq<DimensionModel<N>>,
    rows: Seq<Seq<Seq<char>>>,
    n: int,
)
    requires
        0 <= n <= rows.len(),
    ensures
        rows_inserted(cube, dims, rows, n).2 matches Ok(done) ==> done.rows == n,
    decreases n,
{
    if n > 0 {
        rows_are_counted(cube, dims, rows, n - 1);
    }
}

/// An insertion that succeeds stores every row it was given in the cube it names, and
/// says so; every other cube stays as it is.
pub proof fn insertion_stores_all_rows<N: Number>(
    catalog: CatalogModel<N>,
    name: Seq<char>,
    rows: Seq<Seq<Seq<char>>>,
)
    requires
        catalog.cube(name) is Some,
        inserted_into(catalog, name, Some(rows)).1 is Ok,
    ensures
        ({
            let (after, outcome) = inserted_into(catalog, name, Some(rows));
            let whole = rows_inserted(
                catalog.cube(name)->0,
                catalog.dims,
                rows,
                rows.len() as int,
            );
            &&& after.cube(name) == Some(whole.0)
            &&& after.dims == whole.1
            &&& forall|other: Seq<char>|
                lowercase(other) != lowercase(name) ==> #[trigger] after.cube(other)
                    == catalog.cube(other)
            &&& exists|spread: int|
                outcome->Ok_0 == #[trigger] insert_news(
                    name,
                    InsertModel { rows: rows.len() as int, spread },
                )
        }),
{
    let place = catalog.cube_place(name)->0;
    place_of_is_first(keys(catalog.cubes), lowercase(name));
    let (after, outcome) = inserted_into(catalog, name, Some(rows));
    assert(keys(after.cubes) =~= keys(catalog.cubes));
    let cube = catalog.cubes[place].1;
    rows_are_counted(cube, catalog.dims, rows, rows.len() as int);
    let done = rows_inserted(cube, catalog.dims, rows, rows.len() as int).2->Ok_0;
    assert(outcome->Ok_0 == insert_news(
        name,
        InsertModel { rows: rows.len() as int, spread: done.spread },
    ));
    assert forall|other: Seq<char>|
        lowercase(other) != lowercase(name) implies #[trigger] after.cube(other) == catalog.cube(
        other,
    ) by {
        place_of_is_first(keys(catalog.cubes), lowercase(other));
    }
}

/// A row with too many or too few values is refused, and changes nothing.
pub proof fn rows_of_another_length_are_refused<N: Number>(
    cube: CubeModel<N>,
    dims: Seq<DimensionModel<N>>,
    row: Seq<Seq<char>>,
    done: InsertModel,
)
    requires
        row.len() != cube.dimension_names.len() + 1,
    ensures
        row_inserted(cube, dims, row, done).0 == cube,
        row_inserted(cube, dims, row, done).1 == dims,
        row_inserted(cube, dims, row, done).2 is Err,
{
}

} // verus!
