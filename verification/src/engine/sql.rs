//! The SQL interface: what a statement does to a database, and what it answers.

use crate::catalog::catalog::{dim_made, Catalog, CatalogModel};
use crate::cube::cube::{dims_of, Cube, CubeModel, SplashMode};
use crate::cube::node::{CellModel, CellValue};
use crate::cube::slice::{filters_of, renames_of, ResultModel, ResultSet, SliceModel, SliceQuery};
use crate::dimension::dimension::{Dimension, DimensionModel};
use crate::engine::syntax::{
    can_parse, columns_of, filter_model, first_statement, inserting, parser_takes, put_insert,
    read_first, Filter, FilterModel, JoinKey, KeyModel, QueryModel, SelectQuery, SqlStatement,
    StatementModel,
};
use crate::number::Number;
use crate::storage::name_map::{entries_of, find_key, keys, lookup, put, put_entry};
use crate::text::{
    after_last, answer, byte_len, bytes_in_chars, cat2, cat3, cat4, cat5, cat7, char_count_in_bytes,
    chars_in_bytes, chars_of, copy_texts, decimal, decimal_text, find, find_but_case, find_text,
    found_from, has_text, join, joined, lines, occurs_at, optional, place_but_case, place_of,
    place_of_is_first, push_line, remove_char, repeat, repeated, rows_of, same, slices, starts_with,
    tail_after_last, text_between, texts, to_uppercase, trim, trim_end_char, trimmed, uppercase,
    without, without_end, word, words,
};
use vstd::prelude::*;

verus! {

// ---------------------------------------------------------------------------
// Results in writing
// ---------------------------------------------------------------------------

/// A result as a table.
pub open spec fn table_text(result: ResultModel) -> Seq<char> {
    if result.rows.len() == 0 {
        "0 rows returned."@
    } else {
        lines(
            seq![
                joined(result.headers, " | "@),
                repeated("----------"@, result.headers.len()),
            ] + Seq::new(result.rows.len(), |i: int| joined(result.rows[i], " | "@)),
        )
    }
}

/// A result as it is answered: a single value as it is, anything else as a
/// table.
pub open spec fn result_text(result: ResultModel) -> Seq<char> {
    if result.headers == seq!["value"@] && result.rows.len() == 1 && result.rows[0].len() == 1 {
        result.rows[0][0]
    } else {
        table_text(result)
    }
}

// ---------------------------------------------------------------------------
// The columns of a query
// ---------------------------------------------------------------------------

/// What the columns of a query are: the headers, the axes, the measures and the
/// attributes among them, whether the dimension of the measures is an axis, and
/// the dimension and the hierarchy of the axes.
#[verifier::ext_equal]
pub struct ColumnsModel {
    pub headers: Seq<Seq<char>>,
    pub axes: Seq<Seq<char>>,
    pub measures: Seq<Seq<char>>,
    pub attributes: Seq<Seq<char>>,
    pub measure_axis: bool,
    pub column_dims: Seq<(Seq<char>, usize)>,
    pub axis_hierarchies: Seq<(Seq<char>, Seq<char>)>,
}

impl ColumnsModel {
    pub open spec fn empty() -> Self {
        ColumnsModel {
            headers: Seq::empty(),
            axes: Seq::empty(),
            measures: Seq::empty(),
            attributes: Seq::empty(),
            measure_axis: false,
            column_dims: Seq::empty(),
            axis_hierarchies: Seq::empty(),
        }
    }
}

/// The name of a column: what follows the last dot.
pub open spec fn column_name(column: Seq<char>) -> Seq<char> {
    trimmed(after_last(column, '.'))
}

/// The list with the name at its end, unless it is there.
pub open spec fn names_with(names: Seq<Seq<char>>, name: Seq<char>) -> Seq<Seq<char>> {
    if names.contains(name) {
        names
    } else {
        names.push(name)
    }
}

/// The dimension of the measures.
pub open spec fn measure_dim<N: Number>(dims: Seq<DimensionModel<N>>, cube: CubeModel<N>) -> Option<
    DimensionModel<N>,
> {
    match cube.measure_place() {
        Some(i) => Some(cube.dim(dims, i)),
        None => None,
    }
}

/// The hierarchy that a column names, with the dimension of the cube that has
/// it and the place of that dimension.
pub open spec fn hierarchy_axis<N: Number>(
    catalog: CatalogModel<N>,
    cube: CubeModel<N>,
    name: Seq<char>,
) -> Option<(Seq<char>, Seq<char>, int)> {
    match catalog.reference_named(name) {
        Some((owner, Some(hierarchy))) => match place_of(cube.dimension_names, owner) {
            Some(i) => Some((owner, hierarchy, i)),
            None => None,
        },
        _ => None,
    }
}

/// The measure that a column names, as the dimension spells it.
pub open spec fn measure_named<N: Number>(
    catalog: CatalogModel<N>,
    cube: CubeModel<N>,
    name: Seq<char>,
) -> Option<Seq<char>> {
    match measure_dim(catalog.dims, cube) {
        Some(dim) => match dim.id_of(name) {
            Some(id) => Some(dim.name_of(id)),
            None => None,
        },
        None => None,
    }
}

/// The joined cube has an attribute of that name.
pub open spec fn has_attribute<N: Number>(
    catalog: CatalogModel<N>,
    other: Option<CubeModel<N>>,
    name: Seq<char>,
) -> bool {
    match other {
        Some(cube) => match measure_dim(catalog.dims, cube) {
            Some(dim) => dim.id_of(name) is Some,
            None => false,
        },
        None => false,
    }
}

/// The columns with one more: an axis, by the name of a dimension or of a
/// hierarchy, a measure, an attribute of the joined cube, or the value.
pub open spec fn column_added<N: Number>(
    catalog: CatalogModel<N>,
    cube: CubeModel<N>,
    other: Option<CubeModel<N>>,
    columns: ColumnsModel,
    column: Seq<char>,
) -> Result<ColumnsModel, Seq<char>> {
    let name = column_name(column);
    let shown = ColumnsModel { headers: columns.headers.push(name), ..columns };
    match place_of(cube.dimension_names, name) {
        Some(i) => Ok(
            ColumnsModel {
                axes: names_with(shown.axes, name),
                measure_axis: shown.measure_axis || cube.measure_dimension == Some(name),
                column_dims: put(shown.column_dims, name, i as usize),
                ..shown
            },
        ),
        None => match hierarchy_axis(catalog, cube, name) {
            Some((owner, hierarchy, i)) => if cube.measure_dimension == Some(owner) {
                Err(
                    "Hierarchy '"@ + name
                        + "' belongs to the measure dimension and cannot be used as an axis."@,
                )
            } else {
                Ok(
                    ColumnsModel {
                        axes: names_with(shown.axes, owner),
                        axis_hierarchies: put(shown.axis_hierarchies, owner, hierarchy),
                        column_dims: put(shown.column_dims, name, i as usize),
                        ..shown
                    },
                )
            },
            None => match measure_named(catalog, cube, name) {
                Some(measure) => Ok(
                    ColumnsModel { measures: shown.measures.push(measure), ..shown },
                ),
                None => if has_attribute(catalog, other, name) {
                    Ok(ColumnsModel { attributes: shown.attributes.push(name), ..shown })
                } else if name == "value"@ {
                    Ok(shown)
                } else {
                    Err("Column '"@ + name + "' not found in primary or joined cube."@)
                },
            },
        },
    }
}

/// What the columns are.
pub open spec fn columns_sorted_out<N: Number>(
    catalog: CatalogModel<N>,
    cube: CubeModel<N>,
    other: Option<CubeModel<N>>,
    columns: Seq<Seq<char>>,
) -> Result<ColumnsModel, Seq<char>>
    decreases columns.len(),
{
    if columns.len() == 0 {
        Ok(ColumnsModel::empty())
    } else {
        match columns_sorted_out(catalog, cube, other, columns.drop_last()) {
            Ok(before) => column_added(catalog, cube, other, before, columns.last()),
            Err(e) => Err(e),
        }
    }
}

// ---------------------------------------------------------------------------
// The condition of a query
// ---------------------------------------------------------------------------

/// The values without their quotes.
pub open spec fn unquoted(values: Seq<Seq<char>>) -> Seq<Seq<char>> {
    Seq::new(values.len(), |i: int| without(values[i], '\''))
}

/// The filters with those of a condition. Of two for one column the later
/// counts.
pub open spec fn where_added(
    filters: Seq<(Seq<char>, Seq<Seq<char>>)>,
    condition: FilterModel,
) -> Result<Seq<(Seq<char>, Seq<Seq<char>>)>, Seq<char>>
    decreases condition,
{
    match condition {
        FilterModel::And(a, b) => match where_added(filters, *a) {
            Ok(before) => where_added(before, *b),
            Err(e) => Err(e),
        },
        FilterModel::Equal(column, value) => Ok(
            put(filters, column, seq![without(value, '\'')]),
        ),
        FilterModel::OneOf(column, values, negated) => if negated {
            Err("NOT IN is currently unsupported."@)
        } else {
            Ok(put(filters, column, unquoted(values)))
        },
        FilterModel::Other => Err(
            "Unsupported WHERE format. Use Dim = 'Val' or Dim IN ('Val1', 'Val2')"@,
        ),
    }
}

/// The filters with more values for one dimension.
pub open spec fn values_added(
    filters: Seq<(Seq<char>, Seq<Seq<char>>)>,
    dimension: Seq<char>,
    values: Seq<Seq<char>>,
) -> Seq<(Seq<char>, Seq<Seq<char>>)> {
    put(
        filters,
        dimension,
        match lookup(filters, dimension) {
            Some(before) => before + values,
            None => values,
        },
    )
}

/// The values as members of a hierarchy.
pub open spec fn qualified(hierarchy: Seq<char>, values: Seq<Seq<char>>) -> Seq<Seq<char>> {
    Seq::new(values.len(), |i: int| hierarchy + ":"@ + values[i])
}

/// The filters by dimension. One by the name of a hierarchy is one of the
/// dimension that has it, on members of that hierarchy.
pub open spec fn filters_by_dimension<N: Number>(
    catalog: CatalogModel<N>,
    cube: CubeModel<N>,
    filters: Seq<(Seq<char>, Seq<Seq<char>>)>,
) -> Result<Seq<(Seq<char>, Seq<Seq<char>>)>, Seq<char>>
    decreases filters.len(),
{
    if filters.len() == 0 {
        Ok(Seq::empty())
    } else {
        match filters_by_dimension(catalog, cube, filters.drop_last()) {
            Err(e) => Err(e),
            Ok(before) => {
                let (column, values) = filters.last();
                match catalog.reference_named(column) {
                    Some((owner, Some(hierarchy))) => if cube.measure_dimension == Some(owner) {
                        Err(
                            "Hierarchy '"@ + column
                                + "' belongs to the measure dimension and cannot be filtered on."@,
                        )
                    } else {
                        Ok(values_added(before, owner, qualified(hierarchy, values)))
                    },
                    Some((owner, None)) => Ok(values_added(before, owner, values)),
                    None => Ok(values_added(before, column, values)),
                }
            },
        }
    }
}

/// The filters with the default member of each of the first `n` dimensions
/// that is neither shown nor filtered nor that of the measures.
pub open spec fn with_defaults<N: Number>(
    catalog: CatalogModel<N>,
    cube: CubeModel<N>,
    axes: Seq<Seq<char>>,
    filters: Seq<(Seq<char>, Seq<Seq<char>>)>,
    n: int,
) -> Seq<(Seq<char>, Seq<Seq<char>>)>
    decreases n,
{
    if n <= 0 {
        filters
    } else {
        let before = with_defaults(catalog, cube, axes, filters, n - 1);
        let name = cube.dimension_names[n - 1];
        if cube.measure_dimension == Some(name) || axes.contains(name) || lookup(before, name) is Some {
            before
        } else {
            let dim = cube.dim(catalog.dims, place_of(cube.dimension_names, name)->0);
            match dim.default_member_id {
                Some(id) => put(before, name, seq![dim.name_of(id)]),
                None => before,
            }
        }
    }
}

// ---------------------------------------------------------------------------
// Joins
// ---------------------------------------------------------------------------

/// The names that are in both lists.
pub open spec fn names_in_both(names: Seq<Seq<char>>, others: Seq<Seq<char>>) -> Seq<Seq<char>>
    decreases names.len(),
{
    if names.len() == 0 {
        names
    } else if others.contains(names.last()) {
        names_in_both(names.drop_last(), others).push(names.last())
    } else {
        names_in_both(names.drop_last(), others)
    }
}

/// The dimension by which two cubes are joined. It is in both: the one that
/// `USING` names, or else the only one.
pub open spec fn join_dimension<N>(
    name: Seq<char>,
    cube: CubeModel<N>,
    other_name: Seq<char>,
    other: CubeModel<N>,
    using: Option<Seq<Seq<char>>>,
) -> Result<Seq<char>, Seq<char>> {
    match using {
        Some(columns) => if columns.len() != 1 {
            Err(
                "USING currently accepts a single conformed dimension, got "@ + decimal(
                    columns.len(),
                ) + "."@,
            )
        } else {
            match (
                place_but_case(cube.dimension_names, columns[0]),
                place_but_case(other.dimension_names, columns[0]),
            ) {
                (Some(i), Some(_)) => Ok(cube.dimension_names[i]),
                _ => Err(
                    "Cannot JOIN '"@ + name + "' with '"@ + other_name + "' USING '"@ + columns[0]
                        + "': it must be a conformed dimension (present in both cubes)."@,
                ),
            }
        },
        None => {
            let shared = names_in_both(cube.dimension_names, other.dimension_names);
            if shared.len() == 0 {
                Err(
                    "Cannot JOIN '"@ + name + "' with '"@ + other_name
                        + "': they share no conformed dimension. A JOIN keys off a dimension with the same name in both cubes; write JOIN ... USING (<dimension>)."@,
                )
            } else if shared.len() == 1 {
                Ok(shared[0])
            } else {
                Err(
                    "Cannot infer how to JOIN '"@ + name + "' with '"@ + other_name
                        + "': they share "@ + decimal(shared.len()) + " conformed dimensions ("@
                        + joined(shared, ", "@) + "). Specify one with USING (<dimension>)."@,
                )
            }
        },
    }
}

/// The columns of `USING`, if there is one, or why the join cannot be made.
pub open spec fn join_columns(key: Option<KeyModel>) -> Result<Option<Seq<Seq<char>>>, Seq<char>> {
    match key {
        None => Ok(None),
        Some(KeyModel::Using(columns)) => Ok(Some(columns)),
        Some(KeyModel::Unsaid) => Ok(None),
        Some(KeyModel::Natural) => Ok(None),
        Some(KeyModel::On) => Err(
            "JOIN ... ON is not supported. Since the only thing two cubes can join on is a shared (conformed) dimension, use USING (<dimension>)."@,
        ),
        Some(KeyModel::Cross) => Err(
            "CROSS JOIN is not supported; these cubes are joined through a shared (conformed) dimension via USING (<dimension>)."@,
        ),
        Some(KeyModel::Other) => Err(
            "Only INNER / LEFT / RIGHT / FULL [USING (...)] joins are supported."@,
        ),
    }
}

/// A join: the name and the place of the other cube, and the dimension by which
/// it is joined.
pub struct JoinModel {
    pub name: Seq<char>,
    pub place: int,
    pub dimension: Seq<char>,
}

/// The join of a query.
pub open spec fn join_made<N: Number>(
    catalog: CatalogModel<N>,
    name: Seq<char>,
    cube: CubeModel<N>,
    query: QueryModel,
) -> Result<Option<JoinModel>, Seq<char>> {
    match join_columns(query.key()) {
        Err(e) => Err(e),
        Ok(using) => match query.joined() {
            Some(Some(other_name)) => match catalog.cube_place(other_name) {
                None => Err("Joined cube '"@ + other_name + "' not found"@),
                Some(place) => match join_dimension(
                    name,
                    cube,
                    other_name,
                    catalog.cubes[place].1,
                    using,
                ) {
                    Ok(dimension) => Ok(Some(JoinModel { name: other_name, place, dimension })),
                    Err(e) => Err(e),
                },
            },
            _ => Ok(None),
        },
    }
}

/// The last row whose first cell is `key`.
pub open spec fn last_with_key(rows: Seq<Seq<Seq<char>>>, key: Seq<char>) -> Option<int>
    decreases rows.len(),
{
    if rows.len() == 0 {
        None
    } else if rows.last()[0] == key {
        Some(rows.len() - 1)
    } else {
        last_with_key(rows.drop_last(), key)
    }
}

/// The last place of `name`.
pub open spec fn last_place_of(names: Seq<Seq<char>>, name: Seq<char>) -> Option<int>
    decreases names.len(),
{
    if names.len() == 0 {
        None
    } else if names.last() == name {
        Some(names.len() - 1)
    } else {
        last_place_of(names.drop_last(), name)
    }
}

/// A row with the first `n` attributes in their columns; a dash for one that
/// the joined cube does not have.
pub open spec fn row_enriched(
    headers: Seq<Seq<char>>,
    attributes: Seq<Seq<char>>,
    found: Option<Seq<Seq<char>>>,
    row: Seq<Seq<char>>,
    n: int,
) -> Seq<Seq<char>>
    decreases n,
{
    if n <= 0 {
        row
    } else {
        let before = row_enriched(headers, attributes, found, row, n - 1);
        let value = match found {
            Some(other) => other[last_place_of(attributes, attributes[n - 1])->0 + 1],
            None => "-"@,
        };
        before.update(place_of(headers, attributes[n - 1])->0, value)
    }
}

/// The rows with the attributes that the rows of the joined cube have for their
/// keys.
pub open spec fn enriched(
    result: ResultModel,
    key_column: int,
    attributes: Seq<Seq<char>>,
    others: Seq<Seq<Seq<char>>>,
) -> ResultModel {
    ResultModel {
        headers: result.headers,
        rows: Seq::new(
            result.rows.len(),
            |i: int|
                row_enriched(
                    result.headers,
                    attributes,
                    match last_with_key(others, result.rows[i][key_column]) {
                        Some(k) => Some(others[k]),
                        None => None,
                    },
                    result.rows[i],
                    attributes.len() as int,
                ),
        ),
    }
}

/// The query of the joined cube: its attributes by the joining dimension.
pub open spec fn attribute_query(dimension: Seq<char>, attributes: Seq<Seq<char>>) -> SliceModel {
    SliceModel {
        columns: seq![dimension] + attributes,
        axes: seq![dimension],
        measures: attributes,
        ..SliceModel::empty()
    }
}

// ---------------------------------------------------------------------------
// Queries
// ---------------------------------------------------------------------------

/// The slice that a query asks for, and the attributes that are to be joined.
pub open spec fn slice_asked<N: Number>(
    catalog: CatalogModel<N>,
    cube: CubeModel<N>,
    other: Option<CubeModel<N>>,
    query: QueryModel,
) -> Result<(SliceModel, Seq<Seq<char>>), Seq<char>> {
    match columns_sorted_out(catalog, cube, other, query.columns) {
        Err(e) => Err(e),
        Ok(columns) => if columns.measure_axis && columns.measures.len() > 0 {
            Err("Cannot select both measure dimension and specific measures."@)
        } else {
            let conditions = match query.filter {
                Some(condition) => where_added(Seq::empty(), condition),
                None => Ok(Seq::empty()),
            };
            match conditions {
                Err(e) => Err(e),
                Ok(conditions) => match filters_by_dimension(catalog, cube, conditions) {
                    Err(e) => Err(e),
                    Ok(given) => slice_filtered(
                        cube,
                        columns,
                        with_defaults(
                            catalog,
                            cube,
                            columns.axes,
                            given,
                            cube.dimension_names.len() as int,
                        ),
                    ),
                },
            }
        },
    }
}

/// The slice by its columns and filters. A query for nothing else asks for the
/// value.
pub open spec fn slice_filtered<N: Number>(
    cube: CubeModel<N>,
    columns: ColumnsModel,
    filters: Seq<(Seq<char>, Seq<Seq<char>>)>,
) -> Result<(SliceModel, Seq<Seq<char>>), Seq<char>> {
    if columns.measures.len() > 0 && cube.measure_dimension is Some && lookup(
        filters,
        cube.measure_dimension->0,
    ) is Some {
        Err(
            "Cannot filter on '"@ + cube.measure_dimension->0
                + "' when pivoting specific measures."@,
        )
    } else {
        let headers = if columns.measures.len() == 0 && !columns.measure_axis
            && columns.axes.len() == 0 && !columns.headers.contains("value"@) {
            columns.headers.push("value"@)
        } else {
            columns.headers
        };
        Ok(
            (
                SliceModel {
                    columns: headers,
                    axes: columns.axes,
                    measures: columns.measures,
                    filters,
                    axis_hierarchies: columns.axis_hierarchies,
                    column_dims: columns.column_dims,
                },
                columns.attributes,
            ),
        )
    }
}

/// The result with the attributes of the joined cube, and the dimensions after
/// it was asked for them.
pub open spec fn result_joined<N: Number>(
    dims: Seq<DimensionModel<N>>,
    name: Seq<char>,
    join: JoinModel,
    other: CubeModel<N>,
    result: ResultModel,
    attributes: Seq<Seq<char>>,
) -> (Seq<DimensionModel<N>>, Result<ResultModel, Seq<char>>) {
    match place_of(result.headers, join.dimension) {
        None => (
            dims,
            Err(
                "Cannot JOIN '"@ + name + "' with '"@ + join.name + "': the conformed dimension '"@
                    + join.dimension
                    + "' is not projected, so there is no key to join the attributes onto."@,
            ),
        ),
        Some(key_column) => {
            let after = other.dims_ensured(dims, other.dimensions.len() as int);
            (
                after,
                match other.slice(after, attribute_query(join.dimension, attributes)) {
                    Ok(others) => Ok(enriched(result, key_column, attributes, others.rows)),
                    Err(e) => Err(e),
                },
            )
        },
    }
}

/// The answer to a query, and the database after it, whose display orders are
/// up to date.
pub open spec fn selected<N: Number>(catalog: CatalogModel<N>, query: QueryModel) -> (
    CatalogModel<N>,
    Result<Seq<char>, Seq<char>>,
) {
    match query.table() {
        None => (catalog, Err("SELECT must include a FROM clause naming a cube."@)),
        Some(None) => (catalog, Err("Unsupported FROM clause."@)),
        Some(Some(name)) => match catalog.cube_place(name) {
            None => (catalog, Err("Cube '"@ + name + "' not found"@)),
            Some(place) => selected_from(catalog, query, name, catalog.cubes[place].1),
        },
    }
}

/// The answer to a query of one cube.
pub open spec fn selected_from<N: Number>(
    catalog: CatalogModel<N>,
    query: QueryModel,
    name: Seq<char>,
    cube: CubeModel<N>,
) -> (CatalogModel<N>, Result<Seq<char>, Seq<char>>) {
    match join_made(catalog, name, cube, query) {
        Err(e) => (catalog, Err(e)),
        Ok(join) => {
            let other = match join {
                Some(join) => Some(catalog.cubes[join.place].1),
                None => None,
            };
            match slice_asked(catalog, cube, other, query) {
                Err(e) => (catalog, Err(e)),
                Ok((slice, attributes)) => {
                    let dims = cube.dims_ensured(catalog.dims, cube.dimensions.len() as int);
                    match cube.slice(dims, slice) {
                        Err(e) => (CatalogModel { dims, ..catalog }, Err(e)),
                        Ok(result) => if join is Some && attributes.len() > 0 {
                            let (after, whole) = result_joined(
                                dims,
                                name,
                                join->0,
                                other->0,
                                result,
                                attributes,
                            );
                            (
                                CatalogModel { dims: after, ..catalog },
                                match whole {
                                    Ok(whole) => Ok(result_text(whole)),
                                    Err(e) => Err(e),
                                },
                            )
                        } else {
                            (CatalogModel { dims, ..catalog }, Ok(result_text(result)))
                        },
                    }
                },
            }
        },
    }
}

// ---------------------------------------------------------------------------
// Creating and inserting
// ---------------------------------------------------------------------------

/// The last of the columns whose type is `MEASURE`.
pub open spec fn measure_column(columns: Seq<(Seq<char>, Seq<char>)>) -> Option<Seq<char>>
    decreases columns.len(),
{
    if columns.len() == 0 {
        None
    } else if uppercase(columns.last().1) == "MEASURE"@ {
        Some(columns.last().0)
    } else {
        measure_column(columns.drop_last())
    }
}

/// The database with a new cube.
pub open spec fn table_created<N: Number>(
    catalog: CatalogModel<N>,
    name: Seq<char>,
    columns: Seq<(Seq<char>, Seq<char>)>,
    is_aggregating: bool,
) -> (CatalogModel<N>, Result<Seq<char>, Seq<char>>) {
    if catalog.cube(name) is Some {
        (catalog, Err("Cube '"@ + name + "' already exists."@))
    } else {
        let measure = measure_column(columns);
        (
            catalog.cube_added(
                name,
                Seq::new(columns.len(), |i: int| columns[i].0),
                measure,
                is_aggregating,
            ),
            Ok(
                match measure {
                    Some(m) => "Cube '"@ + name + "' created. Measure dimension: "@ + m,
                    None => "Cube '"@ + name + "' created with no explicit measure dimension."@,
                },
            ),
        )
    }
}

/// The number of rows stored, and of the cells over which values were spread.
pub struct InsertModel {
    pub rows: int,
    pub spread: int,
}

/// The cube and the dimensions after the first `n` rows were stored. A number
/// at an aggregate is spread over the leaves below it.
pub open spec fn rows_inserted<N: Number>(
    cube: CubeModel<N>,
    dims: Seq<DimensionModel<N>>,
    rows: Seq<Seq<Seq<char>>>,
    n: int,
) -> (CubeModel<N>, Seq<DimensionModel<N>>, Result<InsertModel, Seq<char>>)
    decreases n,
{
    if n <= 0 {
        (cube, dims, Ok(InsertModel { rows: 0, spread: 0 }))
    } else {
        match rows_inserted(cube, dims, rows, n - 1) {
            (cube, dims, Err(e)) => (cube, dims, Err(e)),
            (cube, dims, Ok(done)) => row_inserted(cube, dims, rows[n - 1], done),
        }
    }
}

/// The cube and the dimensions after one row more.
pub open spec fn row_inserted<N: Number>(
    cube: CubeModel<N>,
    dims: Seq<DimensionModel<N>>,
    row: Seq<Seq<char>>,
    done: InsertModel,
) -> (CubeModel<N>, Seq<DimensionModel<N>>, Result<InsertModel, Seq<char>>) {
    let count = cube.dimension_names.len();
    if row.len() != count + 1 {
        (
            cube,
            dims,
            Err("Expected "@ + decimal(count + 1) + " values, got "@ + decimal(row.len())),
        )
    } else {
        let members = unquoted(row.take(count as int));
        let value = CellModel::read(row.last(), without(row.last(), '\''));
        if value is Numeric && exists|i: int|
            0 <= i < members.len() && #[trigger] cube.names_aggregate(dims, members, i) {
            match cube.splashed(dims, members, value->Numeric_0, SplashMode::Replace) {
                (after, dims_after, Ok(cells)) => (
                    after,
                    dims_after,
                    Ok(InsertModel { rows: done.rows + 1, spread: done.spread + cells }),
                ),
                (after, dims_after, Err(e)) => (after, dims_after, Err(e)),
            }
        } else {
            let (dims_after, coords) = cube.leaves_added(dims, members);
            (
                cube.written(coords, value),
                dims_after,
                Ok(InsertModel { rows: done.rows + 1, spread: done.spread }),
            )
        }
    }
}

/// The database after rows were stored.
pub open spec fn inserted_into<N: Number>(
    catalog: CatalogModel<N>,
    name: Seq<char>,
    rows: Option<Seq<Seq<Seq<char>>>>,
) -> (CatalogModel<N>, Result<Seq<char>, Seq<char>>) {
    match catalog.cube_place(name) {
        None => (catalog, Err("Cube '"@ + name + "' not found"@)),
        Some(place) => match rows {
            None => (
                catalog,
                Err("Invalid INSERT format. Use: INSERT INTO cube VALUES ('dim1', 'dim2', 100)"@),
            ),
            Some(rows) => {
                let (cube, dims, outcome) = rows_inserted(
                    catalog.cubes[place].1,
                    catalog.dims,
                    rows,
                    rows.len() as int,
                );
                (
                    CatalogModel {
                        dims,
                        cubes: catalog.cubes.update(place, (catalog.cubes[place].0, cube)),
                    },
                    match outcome {
                        Err(e) => Err(e),
                        Ok(done) => Ok(insert_news(name, done)),
                    },
                )
            },
        },
    }
}

pub open spec fn insert_news(name: Seq<char>, done: InsertModel) -> Seq<char> {
    let news = "Upserted "@ + decimal(done.rows as nat) + " row(s) into '"@ + name;
    if done.spread > 0 {
        news + "' (splashed across "@ + decimal(done.spread as nat) + " leaf cell(s))."@
    } else {
        news + "'."@
    }
}

// ---------------------------------------------------------------------------
// Statements
// ---------------------------------------------------------------------------

/// The database after a statement, and the answer. A cube made by it sums up
/// or does not.
pub open spec fn statement_executed<N: Number>(
    catalog: CatalogModel<N>,
    statement: StatementModel,
    is_aggregating: bool,
) -> (CatalogModel<N>, Result<Seq<char>, Seq<char>>) {
    match statement {
        StatementModel::Select(query) => selected(catalog, query),
        StatementModel::OtherQuery => (catalog, Err("Unsupported SELECT format."@)),
        StatementModel::CreateTable(name, columns) => table_created(
            catalog,
            name,
            columns,
            is_aggregating,
        ),
        StatementModel::Insert(name, rows) => inserted_into(catalog, name, rows),
        StatementModel::Other => (catalog, Err("Unsupported SQL command."@)),
    }
}

// ---------------------------------------------------------------------------
// Texts
// ---------------------------------------------------------------------------

/// What follows the first bytes of a text.
pub open spec fn after_bytes(text: Seq<char>, count: int) -> Seq<char> {
    text.skip(chars_in_bytes(text, count)->0)
}

/// What `CREATE DIMENSION` says: a name.
pub open spec fn dimension_words(sql: Seq<char>) -> Seq<char> {
    without_end(trimmed(after_bytes(sql, 16)), ';')
}

/// What `CREATE HIERARCHY` says: a hierarchy `IN` a dimension.
pub open spec fn hierarchy_words(sql: Seq<char>) -> Seq<char> {
    trimmed(without_end(trimmed(after_bytes(sql, 16)), ';'))
}

/// How many bytes stand before ` IN `, in any case.
pub open spec fn bytes_before_in(text: Seq<char>) -> Option<int> {
    match found_from(uppercase(text), " IN "@, 0) {
        Some(i) => Some(byte_len(uppercase(text).take(i)) as int),
        None => None,
    }
}

/// The text can be cut where ` IN ` stands in its upper-case form.
pub open spec fn can_cut(text: Seq<char>) -> bool {
    match bytes_before_in(text) {
        Some(at) => chars_in_bytes(text, at) is Some && chars_in_bytes(text, at + 4) is Some,
        None => true,
    }
}

/// The hierarchy and the dimension.
pub open spec fn hierarchy_and_dimension(text: Seq<char>) -> Option<(Seq<char>, Seq<char>)> {
    match bytes_before_in(text) {
        Some(at) => Some(
            (
                trimmed(text.take(chars_in_bytes(text, at)->0)),
                trimmed(after_bytes(text, at + 4)),
            ),
        ),
        None => None,
    }
}

/// The parser can be asked for the first statement, and there is one unless it
/// complains.
pub open spec fn statement_ready(text: Seq<char>) -> bool {
    can_parse(inserting(text)) && first_statement(inserting(text)) != Ok::<
        Option<StatementModel>,
        Seq<char>,
    >(None)
}

/// The statement that makes a cube of attributes, as one that makes a table.
pub open spec fn attribute_statement(text: Seq<char>) -> Seq<char> {
    "CREATE TABLE "@ + after_bytes(text, 22)
}

/// The text holds a statement: one of the engine's own, which can be cut where
/// its words end, or one that the parser finds.
pub open spec fn sql_ready(sql: Seq<char>) -> bool {
    let text = trimmed(sql);
    let upper = uppercase(text);
    if occurs_at(upper, "CREATE DIMENSION"@, 0) {
        chars_in_bytes(sql, 16) is Some
    } else if occurs_at(upper, "CREATE HIERARCHY"@, 0) {
        chars_in_bytes(sql, 16) is Some && can_cut(hierarchy_words(sql))
    } else if occurs_at(upper, "CREATE ATTRIBUTE TABLE"@, 0) {
        chars_in_bytes(text, 22) is Some && statement_ready(attribute_statement(text))
    } else {
        statement_ready(text)
    }
}

/// The database after a text was executed, and the answer.
pub open spec fn sql_executed<N: Number>(catalog: CatalogModel<N>, sql: Seq<char>) -> (
    CatalogModel<N>,
    Result<Seq<char>, Seq<char>>,
) {
    let text = trimmed(sql);
    let upper = uppercase(text);
    if occurs_at(upper, "CREATE DIMENSION"@, 0) {
        let name = dimension_words(sql);
        (
            CatalogModel { dims: dim_made(catalog.dims, name).0, ..catalog },
            Ok("Dimension '"@ + name + "' created successfully."@),
        )
    } else if occurs_at(upper, "CREATE HIERARCHY"@, 0) {
        hierarchy_executed(catalog, hierarchy_words(sql))
    } else if occurs_at(upper, "CREATE ATTRIBUTE TABLE"@, 0) {
        text_executed(catalog, attribute_statement(text), false)
    } else {
        text_executed(catalog, text, true)
    }
}

/// The database with a new hierarchy.
pub open spec fn hierarchy_executed<N: Number>(catalog: CatalogModel<N>, text: Seq<char>) -> (
    CatalogModel<N>,
    Result<Seq<char>, Seq<char>>,
) {
    let usage = Err("Usage: CREATE HIERARCHY <hierarchy> IN <dimension>"@);
    match hierarchy_and_dimension(text) {
        None => (catalog, usage),
        Some((hierarchy, dimension)) => if hierarchy.len() == 0 || dimension.len() == 0 {
            (catalog, usage)
        } else {
            match catalog.hierarchy_created(dimension, hierarchy) {
                (after, Ok(owner)) => (
                    after,
                    Ok(
                        "Hierarchy '"@ + hierarchy + "' created in dimension '"@ + owner + "'."@,
                    ),
                ),
                (after, Err(e)) => (after, Err(e)),
            }
        },
    }
}

/// The database after the first statement of a text.
pub open spec fn text_executed<N: Number>(
    catalog: CatalogModel<N>,
    text: Seq<char>,
    is_aggregating: bool,
) -> (CatalogModel<N>, Result<Seq<char>, Seq<char>>) {
    match first_statement(inserting(text)) {
        Ok(statement) => statement_executed(catalog, statement->0, is_aggregating),
        Err(e) => (catalog, Err("SQL Parse Error: "@ + e)),
    }
}

// ---------------------------------------------------------------------------
// Writing results
// ---------------------------------------------------------------------------

/// Writes a result as a table.
pub fn format_result_set(rs: ResultSet) -> (r: String)
    ensures
        r@ == table_text(rs@),
{
    if rs.rows.len() == 0 {
        return "0 rows returned.".to_string();
    }
    let head = join(&rs.headers, " | ");
    let rule = repeat("----------", rs.headers.len());
    let ghost first = seq![head@, rule@];
    let ghost rest = Seq::new(rs@.rows.len(), |i: int| joined(rs@.rows[i], " | "@));
    let mut out = String::new();
    push_line(&mut out, head.as_str());
    push_line(&mut out, rule.as_str());
    proof {
        assert(first.drop_last() =~= seq![head@]);
        assert(seq![head@].drop_last() =~= Seq::<Seq<char>>::empty());
        assert(lines(seq![head@].drop_last()) =~= Seq::<char>::empty());
        assert(lines(seq![head@]) =~= head@ + seq!['\n']);
        assert(out@ =~= lines(first));
        assert(first + rest.take(0) =~= first);
    }
    let mut i: usize = 0;
    while i < rs.rows.len()
        invariant
            i <= rs.rows@.len(),
            rest == Seq::new(rs@.rows.len(), |i: int| joined(rs@.rows[i], " | "@)),
            out@ == lines(first + rest.take(i as int)),
        decreases rs.rows@.len() - i,
    {
        let ghost upto = first + rest.take(i as int + 1);
        assert(upto.drop_last() =~= first + rest.take(i as int));
        push_line(&mut out, join(&rs.rows[i], " | ").as_str());
        assert(upto.last() == rest[i as int]);
        assert(rs@.rows[i as int] == texts(rs.rows@[i as int]@));
        i += 1;
    }
    assert(rest.take(i as int) =~= rest);
    out
}

/// Writes a result as it is answered.
pub fn show_result(rs: ResultSet) -> (r: String)
    ensures
        r@ == result_text(rs@),
{
    let single = rs.headers.len() == 1 && same(rs.headers[0].as_str(), "value") && rs.rows.len()
        == 1 && rs.rows[0].len() == 1;
    proof {
        if rs.headers@.len() == 1 && rs.headers@[0]@ == "value"@ {
            assert(rs@.headers =~= seq!["value"@]);
        }
        if rs@.headers == seq!["value"@] {
            assert(rs@.headers.len() == 1);
            assert(rs@.headers[0] == "value"@);
        }
    }
    if single {
        rs.rows[0][0].clone()
    } else {
        format_result_set(rs)
    }
}

// ---------------------------------------------------------------------------
// Sorting out columns
// ---------------------------------------------------------------------------

/// What the columns of a query are.
struct Columns {
    headers: Vec<String>,
    axes: Vec<String>,
    measures: Vec<String>,
    attributes: Vec<String>,
    measure_axis: bool,
    column_dims: Vec<(String, usize)>,
    axis_hierarchies: Vec<(String, String)>,
}

impl View for Columns {
    type V = ColumnsModel;

    closed spec fn view(&self) -> ColumnsModel {
        ColumnsModel {
            headers: texts(self.headers@),
            axes: texts(self.axes@),
            measures: texts(self.measures@),
            attributes: texts(self.attributes@),
            measure_axis: self.measure_axis,
            column_dims: entries_of(self.column_dims@),
            axis_hierarchies: renames_of(self.axis_hierarchies@),
        }
    }
}

fn push_text(v: &mut Vec<String>, item: String)
    ensures
        texts(final(v)@) == texts(old(v)@).push(item@),
{
    let ghost was = texts(v@);
    v.push(item);
    assert(texts(v@) =~= was.push(item@));
}

fn push_if_absent(v: &mut Vec<String>, item: &str)
    ensures
        texts(final(v)@) == names_with(texts(old(v)@), item@),
{
    if !has_text(v, item) {
        push_text(v, item.to_string());
    }
}

/// Puts a name under a name.
fn put_rename(v: &mut Vec<(String, String)>, key: String, value: String)
    ensures
        renames_of(final(v)@) == put(renames_of(old(v)@), key@, value@),
{
    let ghost was = renames_of(v@);
    assert(keys(entries_of(v@)) =~= keys(was));
    put_entry(v, key, value);
    proof {
        place_of_is_first(keys(was), key@);
        match place_of(keys(was), key@) {
            Some(i) => {
                assert(renames_of(v@) =~= was.update(i, (key@, value@)));
            },
            None => {
                assert(renames_of(v@) =~= was.push((key@, value@)));
            },
        }
    }
}

/// Puts values under a name.
fn put_values(v: &mut Vec<(String, Vec<String>)>, key: String, values: Vec<String>)
    ensures
        filters_of(final(v)@) == put(filters_of(old(v)@), key@, texts(values@)),
{
    let ghost was = filters_of(v@);
    assert(keys(entries_of(v@)) =~= keys(was));
    put_entry(v, key, values);
    proof {
        place_of_is_first(keys(was), key@);
        match place_of(keys(was), key@) {
            Some(i) => {
                assert(filters_of(v@) =~= was.update(i, (key@, texts(values@))));
            },
            None => {
                assert(filters_of(v@) =~= was.push((key@, texts(values@))));
            },
        }
    }
}

/// The values under a name.
fn find_values(v: &Vec<(String, Vec<String>)>, key: &str) -> (r: Option<usize>)
    ensures
        match r {
            Some(i) => i < v@.len() && lookup(filters_of(v@), key@) == Some(texts(v@[i as int].1@)),
            None => lookup(filters_of(v@), key@) is None,
        },
{
    assert(keys(entries_of(v@)) =~= keys(filters_of(v@)));
    find_key(v, key)
}

/// The dimension of the measures of a cube.
fn find_measure_dim<'a, N: Number>(dims: &'a Vec<Dimension<N>>, cube: &Cube<N>) -> (r: Option<
    &'a Dimension<N>,
>)
    requires
        cube@.fits(dims@.len()),
    ensures
        match r {
            Some(dim) => measure_dim(dims_of(dims@), cube@) == Some(dim@),
            None => measure_dim(dims_of(dims@), cube@) is None,
        },
{
    match &cube.measure_dimension {
        Some(name) => match find_text(&cube.dimension_names, name.as_str()) {
            Some(i) => {
                let slot = cube.dimensions[i];
                assert(slot < dims@.len());
                Some(&dims[slot])
            },
            None => None,
        },
        None => None,
    }
}

/// True when the name is that of the dimension of the measures.
fn is_measure_dimension<N: Number>(cube: &Cube<N>, name: &str) -> (r: bool)
    ensures
        r == (cube@.measure_dimension == Some(name@)),
{
    match &cube.measure_dimension {
        Some(m) => same(m.as_str(), name),
        None => false,
    }
}

fn add_column<N: Number>(
    catalog: &Catalog<N>,
    cube: &Cube<N>,
    other: Option<&Cube<N>>,
    columns: Columns,
    column: &str,
) -> (r: Result<Columns, String>)
    requires
        cube@.fits(catalog.dimensions@.len()),
        other matches Some(o) ==> o@.fits(catalog.dimensions@.len()),
    ensures
        ({
            let spec = column_added(catalog@, cube@, other_model(other), columns@, column@);
            match r {
                Ok(after) => spec == Ok::<ColumnsModel, Seq<char>>(after@),
                Err(e) => spec == Err::<ColumnsModel, Seq<char>>(e@),
            }
        }),
{
    let name = trim(tail_after_last(column, '.').as_str());
    let mut columns = columns;
    push_text(&mut columns.headers, name.clone());
    match find_text(&cube.dimension_names, name.as_str()) {
        Some(i) => {
            push_if_absent(&mut columns.axes, name.as_str());
            if is_measure_dimension(cube, name.as_str()) {
                columns.measure_axis = true;
            }
            put_entry(&mut columns.column_dims, name, i);
            return Ok(columns);
        },
        None => {},
    }
    match catalog.dimension_of_reference(name.as_str()) {
        Some((owner, Some(hierarchy))) => match find_text(&cube.dimension_names, owner.as_str()) {
            Some(i) => {
                if is_measure_dimension(cube, owner.as_str()) {
                    return Err(
                        cat3(
                            "Hierarchy '",
                            name.as_str(),
                            "' belongs to the measure dimension and cannot be used as an axis.",
                        ),
                    );
                }
                push_if_absent(&mut columns.axes, owner.as_str());
                put_rename(&mut columns.axis_hierarchies, owner, hierarchy);
                put_entry(&mut columns.column_dims, name, i);
                return Ok(columns);
            },
            None => {},
        },
        _ => {},
    }
    match find_measure_dim(&catalog.dimensions, cube) {
        Some(dim) => match dim.get_id(name.as_str()) {
            Some(id) => {
                push_text(&mut columns.measures, dim.get_name(id));
                return Ok(columns);
            },
            None => {},
        },
        None => {},
    }
    let attribute = match other {
        Some(o) => match find_measure_dim(&catalog.dimensions, o) {
            Some(dim) => dim.get_id(name.as_str()).is_some(),
            None => false,
        },
        None => false,
    };
    if attribute {
        push_text(&mut columns.attributes, name);
        Ok(columns)
    } else if same(name.as_str(), "value") {
        Ok(columns)
    } else {
        Err(cat3("Column '", name.as_str(), "' not found in primary or joined cube."))
    }
}

/// The model of a cube, if there is one.
spec fn other_model<N: Number>(cube: Option<&Cube<N>>) -> Option<CubeModel<N>> {
    match cube {
        Some(cube) => Some(cube@),
        None => None,
    }
}

proof fn columns_stay_failed<N: Number>(
    catalog: CatalogModel<N>,
    cube: CubeModel<N>,
    other: Option<CubeModel<N>>,
    columns: Seq<Seq<char>>,
    n: int,
)
    requires
        0 <= n <= columns.len(),
        columns_sorted_out(catalog, cube, other, columns.take(n)) is Err,
    ensures
        columns_sorted_out(catalog, cube, other, columns) == columns_sorted_out(
            catalog,
            cube,
            other,
            columns.take(n),
        ),
    decreases columns.len() - n,
{
    if n < columns.len() {
        assert(columns.take(n + 1).drop_last() =~= columns.take(n));
        columns_stay_failed(catalog, cube, other, columns, n + 1);
    } else {
        assert(columns.take(n) =~= columns);
    }
}

fn sort_out_columns<N: Number>(
    catalog: &Catalog<N>,
    cube: &Cube<N>,
    other: Option<&Cube<N>>,
    columns: &Vec<String>,
) -> (r: Result<Columns, String>)
    requires
        cube@.fits(catalog.dimensions@.len()),
        other matches Some(o) ==> o@.fits(catalog.dimensions@.len()),
    ensures
        ({
            let spec = columns_sorted_out(
                catalog@,
                cube@,
                other_model(other),
                texts(columns@),
            );
            match r {
                Ok(after) => spec == Ok::<ColumnsModel, Seq<char>>(after@),
                Err(e) => spec == Err::<ColumnsModel, Seq<char>>(e@),
            }
        }),
{
    let ghost all = texts(columns@);
    let ghost second = other_model(other);
    let mut sorted = Columns {
        headers: Vec::new(),
        axes: Vec::new(),
        measures: Vec::new(),
        attributes: Vec::new(),
        measure_axis: false,
        column_dims: Vec::new(),
        axis_hierarchies: Vec::new(),
    };
    assert(sorted@ =~= ColumnsModel::empty());
    let mut i: usize = 0;
    while i < columns.len()
        invariant
            i <= columns@.len(),
            cube@.fits(catalog.dimensions@.len()),
            other matches Some(o) ==> o@.fits(catalog.dimensions@.len()),
            all == texts(columns@),
            second == other_model(other),
            columns_sorted_out(catalog@, cube@, second, all.take(i as int)) == Ok::<
                ColumnsModel,
                Seq<char>,
            >(sorted@),
        decreases columns@.len() - i,
    {
        assert(all.take(i as int + 1).drop_last() =~= all.take(i as int));
        match add_column(catalog, cube, other, sorted, columns[i].as_str()) {
            Ok(after) => {
                sorted = after;
            },
            Err(e) => {
                proof {
                    columns_stay_failed(catalog@, cube@, second, all, i as int + 1);
                }
                return Err(e);
            },
        }
        i += 1;
    }
    assert(all.take(i as int) =~= all);
    Ok(sorted)
}

// ---------------------------------------------------------------------------
// Reading conditions
// ---------------------------------------------------------------------------

fn unquote_all(values: &Vec<String>) -> (r: Vec<String>)
    ensures
        texts(r@) == unquoted(texts(values@)),
{
    let ghost all = unquoted(texts(values@));
    let mut out: Vec<String> = Vec::new();
    let mut i: usize = 0;
    assert(texts(out@) =~= all.take(0));
    while i < values.len()
        invariant
            i <= values@.len(),
            all == unquoted(texts(values@)),
            texts(out@) == all.take(i as int),
        decreases values@.len() - i,
    {
        push_text(&mut out, remove_char(values[i].as_str(), '\''));
        assert(texts(out@) =~= all.take(i as int + 1));
        i += 1;
    }
    assert(all.take(i as int) =~= all);
    out
}

/// Adds the filters of a condition: `Dim = 'Val'` and `Dim IN ('Val1', 'Val2')`,
/// with `AND` between them.
pub fn extract_where_map(filter: &Filter, filters: &mut Vec<(String, Vec<String>)>) -> (r: Result<
    (),
    String,
>)
    ensures
        match r {
            Ok(()) => where_added(filters_of(old(filters)@), filter_model(*filter)) == Ok::<
                Seq<(Seq<char>, Seq<Seq<char>>)>,
                Seq<char>,
            >(filters_of(final(filters)@)),
            Err(e) => where_added(filters_of(old(filters)@), filter_model(*filter)) == Err::<
                Seq<(Seq<char>, Seq<Seq<char>>)>,
                Seq<char>,
            >(e@),
        },
    decreases filter,
{
    match filter {
        Filter::And(a, b) => {
            match extract_where_map(a, filters) {
                Ok(()) => {},
                Err(e) => {
                    return Err(e);
                },
            }
            extract_where_map(b, filters)
        },
        Filter::Equal(column, value) => {
            let mut values: Vec<String> = Vec::new();
            push_text(&mut values, remove_char(value.as_str(), '\''));
            assert(texts(values@) =~= seq![without(value@, '\'')]);
            put_values(filters, column.clone(), values);
            Ok(())
        },
        Filter::OneOf(column, values, negated) => {
            if *negated {
                return Err("NOT IN is currently unsupported.".to_string());
            }
            put_values(filters, column.clone(), unquote_all(values));
            Ok(())
        },
        Filter::Other => Err(
            "Unsupported WHERE format. Use Dim = 'Val' or Dim IN ('Val1', 'Val2')".to_string(),
        ),
    }
}

/// Adds values for one dimension.
fn add_values(filters: &mut Vec<(String, Vec<String>)>, dimension: String, values: Vec<String>)
    ensures
        filters_of(final(filters)@) == values_added(
            filters_of(old(filters)@),
            dimension@,
            texts(values@),
        ),
{
    let whole = match find_values(filters, dimension.as_str()) {
        Some(k) => {
            let mut before = copy_texts(&filters[k].1);
            append_texts(&mut before, &values);
            before
        },
        None => values,
    };
    put_values(filters, dimension, whole);
}

fn append_texts(v: &mut Vec<String>, more: &Vec<String>)
    ensures
        texts(final(v)@) == texts(old(v)@) + texts(more@),
{
    let ghost start = texts(v@);
    let ghost all = texts(more@);
    let mut i: usize = 0;
    assert(start + all.take(0) =~= start);
    while i < more.len()
        invariant
            i <= more@.len(),
            all == texts(more@),
            texts(v@) == start + all.take(i as int),
        decreases more@.len() - i,
    {
        push_text(v, more[i].clone());
        assert(texts(v@) =~= start + all.take(i as int + 1));
        i += 1;
    }
    assert(all.take(i as int) =~= all);
}

fn qualify_all(hierarchy: &str, values: &Vec<String>) -> (r: Vec<String>)
    ensures
        texts(r@) == qualified(hierarchy@, texts(values@)),
{
    let ghost all = qualified(hierarchy@, texts(values@));
    let mut out: Vec<String> = Vec::new();
    let mut i: usize = 0;
    assert(texts(out@) =~= all.take(0));
    while i < values.len()
        invariant
            i <= values@.len(),
            all == qualified(hierarchy@, texts(values@)),
            texts(out@) == all.take(i as int),
        decreases values@.len() - i,
    {
        push_text(&mut out, cat3(hierarchy, ":", values[i].as_str()));
        assert(texts(out@) =~= all.take(i as int + 1));
        i += 1;
    }
    assert(all.take(i as int) =~= all);
    out
}

proof fn filters_stay_failed<N: Number>(
    catalog: CatalogModel<N>,
    cube: CubeModel<N>,
    filters: Seq<(Seq<char>, Seq<Seq<char>>)>,
    n: int,
)
    requires
        0 <= n <= filters.len(),
        filters_by_dimension(catalog, cube, filters.take(n)) is Err,
    ensures
        filters_by_dimension(catalog, cube, filters) == filters_by_dimension(
            catalog,
            cube,
            filters.take(n),
        ),
    decreases filters.len() - n,
{
    if n < filters.len() {
        assert(filters.take(n + 1).drop_last() =~= filters.take(n));
        filters_stay_failed(catalog, cube, filters, n + 1);
    } else {
        assert(filters.take(n) =~= filters);
    }
}

fn by_dimension<N: Number>(
    catalog: &Catalog<N>,
    cube: &Cube<N>,
    filters: &Vec<(String, Vec<String>)>,
) -> (r: Result<Vec<(String, Vec<String>)>, String>)
    ensures
        match r {
            Ok(after) => filters_by_dimension(catalog@, cube@, filters_of(filters@)) == Ok::<
                Seq<(Seq<char>, Seq<Seq<char>>)>,
                Seq<char>,
            >(filters_of(after@)),
            Err(e) => filters_by_dimension(catalog@, cube@, filters_of(filters@)) == Err::<
                Seq<(Seq<char>, Seq<Seq<char>>)>,
                Seq<char>,
            >(e@),
        },
{
    let ghost all = filters_of(filters@);
    let mut out: Vec<(String, Vec<String>)> = Vec::new();
    let mut i: usize = 0;
    assert(filters_of(out@) =~= Seq::<(Seq<char>, Seq<Seq<char>>)>::empty());
    while i < filters.len()
        invariant
            i <= filters@.len(),
            all == filters_of(filters@),
            filters_by_dimension(catalog@, cube@, all.take(i as int)) == Ok::<
                Seq<(Seq<char>, Seq<Seq<char>>)>,
                Seq<char>,
            >(filters_of(out@)),
        decreases filters@.len() - i,
    {
        assert(all.take(i as int + 1).drop_last() =~= all.take(i as int));
        let column = filters[i].0.as_str();
        match catalog.dimension_of_reference(column) {
            Some((owner, Some(hierarchy))) => {
                if is_measure_dimension(cube, owner.as_str()) {
                    proof {
                        filters_stay_failed(catalog@, cube@, all, i as int + 1);
                    }
                    return Err(
                        cat3(
                            "Hierarchy '",
                            column,
                            "' belongs to the measure dimension and cannot be filtered on.",
                        ),
                    );
                }
                add_values(&mut out, owner, qualify_all(hierarchy.as_str(), &filters[i].1));
            },
            Some((owner, None)) => {
                add_values(&mut out, owner, copy_texts(&filters[i].1));
            },
            None => {
                add_values(&mut out, column.to_string(), copy_texts(&filters[i].1));
            },
        }
        i += 1;
    }
    assert(all.take(i as int) =~= all);
    Ok(out)
}

/// Adds the default members of the dimensions that are neither shown nor
/// filtered.
fn add_defaults<N: Number>(
    catalog: &Catalog<N>,
    cube: &Cube<N>,
    axes: &Vec<String>,
    filters: &mut Vec<(String, Vec<String>)>,
)
    requires
        cube@.fits(catalog.dimensions@.len()),
    ensures
        filters_of(final(filters)@) == with_defaults(
            catalog@,
            cube@,
            texts(axes@),
            filters_of(old(filters)@),
            cube@.dimension_names.len() as int,
        ),
{
    let ghost was = filters_of(filters@);
    let mut i: usize = 0;
    while i < cube.dimension_names.len()
        invariant
            i <= cube.dimension_names@.len(),
            cube@.fits(catalog.dimensions@.len()),
            filters_of(filters@) == with_defaults(catalog@, cube@, texts(axes@), was, i as int),
        decreases cube.dimension_names@.len() - i,
    {
        let name = cube.dimension_names[i].as_str();
        assert(cube@.dimension_names[i as int] == name@);
        if !is_measure_dimension(cube, name) && !has_text(axes, name) && find_values(
            filters,
            name,
        ).is_none() {
            match find_text(&cube.dimension_names, name) {
                Some(k) => {
                    let slot = cube.dimensions[k];
                    assert(slot < catalog.dimensions@.len());
                    match catalog.dimensions[slot].get_default_member_name() {
                        Some(member) => {
                            let mut values: Vec<String> = Vec::new();
                            let ghost text = member@;
                            push_text(&mut values, member);
                            assert(texts(values@) =~= seq![text]);
                            put_values(filters, name.to_string(), values);
                        },
                        None => {},
                    }
                },
                None => {
                    proof {
                        place_of_is_first(cube@.dimension_names, name@);
                        assert(cube@.dimension_names.contains(name@));
                    }
                },
            }
        }
        i += 1;
    }
}

/// Makes out the slice that a query asks for, and the attributes to be joined.
fn plan_slice<N: Number>(
    catalog: &Catalog<N>,
    cube: &Cube<N>,
    other: Option<&Cube<N>>,
    query: &SelectQuery,
) -> (r: Result<(SliceQuery, Vec<String>), String>)
    requires
        cube@.fits(catalog.dimensions@.len()),
        other matches Some(o) ==> o@.fits(catalog.dimensions@.len()),
    ensures
        match r {
            Ok((slice, attributes)) => slice_asked(catalog@, cube@, other_model(other), query@)
                == Ok::<(SliceModel, Seq<Seq<char>>), Seq<char>>((slice@, texts(attributes@))),
            Err(e) => slice_asked(catalog@, cube@, other_model(other), query@) == Err::<
                (SliceModel, Seq<Seq<char>>),
                Seq<char>,
            >(e@),
        },
{
    let columns = match sort_out_columns(catalog, cube, other, &query.columns) {
        Ok(columns) => columns,
        Err(e) => {
            return Err(e);
        },
    };
    if columns.measure_axis && columns.measures.len() > 0 {
        return Err("Cannot select both measure dimension and specific measures.".to_string());
    }
    let mut conditions: Vec<(String, Vec<String>)> = Vec::new();
    assert(filters_of(conditions@) =~= Seq::<(Seq<char>, Seq<Seq<char>>)>::empty());
    match &query.filter {
        Some(filter) => match extract_where_map(filter, &mut conditions) {
            Ok(()) => {},
            Err(e) => {
                return Err(e);
            },
        },
        None => {},
    }
    let mut filters = match by_dimension(catalog, cube, &conditions) {
        Ok(filters) => filters,
        Err(e) => {
            return Err(e);
        },
    };
    add_defaults(catalog, cube, &columns.axes, &mut filters);
    if columns.measures.len() > 0 {
        match &cube.measure_dimension {
            Some(m) => {
                if find_values(&filters, m.as_str()).is_some() {
                    return Err(
                        cat3(
                            "Cannot filter on '",
                            m.as_str(),
                            "' when pivoting specific measures.",
                        ),
                    );
                }
            },
            None => {},
        }
    }
    let mut headers = columns.headers;
    if columns.measures.len() == 0 && !columns.measure_axis && columns.axes.len() == 0 && !has_text(
        &headers,
        "value",
    ) {
        push_text(&mut headers, "value".to_string());
    }
    let slice = SliceQuery {
        output_columns: headers,
        axes: columns.axes,
        requested_measures: columns.measures,
        filters,
        axis_hierarchies: columns.axis_hierarchies,
        column_dim_index: columns.column_dims,
    };
    Ok((slice, columns.attributes))
}

// ---------------------------------------------------------------------------
// Joining
// ---------------------------------------------------------------------------

fn find_in_both(names: &Vec<String>, others: &Vec<String>) -> (r: Vec<String>)
    ensures
        texts(r@) == names_in_both(texts(names@), texts(others@)),
{
    let ghost all = texts(names@);
    let mut out: Vec<String> = Vec::new();
    let mut i: usize = 0;
    assert(texts(out@) =~= names_in_both(all.take(0), texts(others@)));
    while i < names.len()
        invariant
            i <= names@.len(),
            all == texts(names@),
            texts(out@) == names_in_both(all.take(i as int), texts(others@)),
        decreases names@.len() - i,
    {
        assert(all.take(i as int + 1).drop_last() =~= all.take(i as int));
        if has_text(others, names[i].as_str()) {
            push_text(&mut out, names[i].clone());
        }
        i += 1;
    }
    assert(all.take(i as int) =~= all);
    out
}

/// The columns of `USING`.
spec fn using_model(using: Option<&Vec<String>>) -> Option<Seq<Seq<char>>> {
    match using {
        Some(columns) => Some(texts(columns@)),
        None => None,
    }
}

fn find_join_dimension<N: Number>(
    name: &str,
    cube: &Cube<N>,
    other_name: &str,
    other: &Cube<N>,
    using: Option<&Vec<String>>,
) -> (r: Result<String, String>)
    ensures
        answer(r) == join_dimension(name@, cube@, other_name@, other@, using_model(using)),
{
    match using {
        Some(columns) => {
            if columns.len() != 1 {
                return Err(
                    cat3(
                        "USING currently accepts a single conformed dimension, got ",
                        decimal_text(columns.len() as u128).as_str(),
                        ".",
                    ),
                );
            }
            let column = columns[0].as_str();
            assert(texts(columns@)[0] == column@);
            match (
                find_but_case(&cube.dimension_names, column),
                find_but_case(&other.dimension_names, column),
            ) {
                (Some(i), Some(_)) => Ok(cube.dimension_names[i].clone()),
                _ => Err(
                    cat7(
                        "Cannot JOIN '",
                        name,
                        "' with '",
                        other_name,
                        "' USING '",
                        column,
                        "': it must be a conformed dimension (present in both cubes).",
                    ),
                ),
            }
        },
        None => {
            let shared = find_in_both(&cube.dimension_names, &other.dimension_names);
            if shared.len() == 0 {
                Err(
                    cat5(
                        "Cannot JOIN '",
                        name,
                        "' with '",
                        other_name,
                        "': they share no conformed dimension. A JOIN keys off a dimension with the same name in both cubes; write JOIN ... USING (<dimension>).",
                    ),
                )
            } else if shared.len() == 1 {
                Ok(shared[0].clone())
            } else {
                let head = cat7(
                    "Cannot infer how to JOIN '",
                    name,
                    "' with '",
                    other_name,
                    "': they share ",
                    decimal_text(shared.len() as u128).as_str(),
                    " conformed dimensions (",
                );
                Err(
                    cat3(
                        head.as_str(),
                        join(&shared, ", ").as_str(),
                        "). Specify one with USING (<dimension>).",
                    ),
                )
            }
        },
    }
}

/// A join: the name and the place of the other cube, and the dimension by which
/// it is joined.
struct JoinPlan {
    name: String,
    place: usize,
    dimension: String,
}

impl View for JoinPlan {
    type V = JoinModel;

    closed spec fn view(&self) -> JoinModel {
        JoinModel { name: self.name@, place: self.place as int, dimension: self.dimension@ }
    }
}

/// The model of a join, if there is one.
spec fn plan_model(plan: Option<JoinPlan>) -> Option<JoinModel> {
    match plan {
        Some(plan) => Some(plan@),
        None => None,
    }
}

fn plan_join<N: Number>(
    catalog: &Catalog<N>,
    name: &str,
    cube: &Cube<N>,
    query: &SelectQuery,
) -> (r: Result<Option<JoinPlan>, String>)
    ensures
        match r {
            Ok(Some(plan)) => join_made(catalog@, name@, cube@, query@) == Ok::<
                Option<JoinModel>,
                Seq<char>,
            >(Some(plan@)) && plan.place < catalog.cubes@.len(),
            Ok(None) => join_made(catalog@, name@, cube@, query@) == Ok::<
                Option<JoinModel>,
                Seq<char>,
            >(None),
            Err(e) => join_made(catalog@, name@, cube@, query@) == Err::<
                Option<JoinModel>,
                Seq<char>,
            >(e@),
        },
{
    let key = query.key();
    let using = match &key {
        None => None,
        Some(JoinKey::Using(columns)) => Some(columns),
        Some(JoinKey::Unsaid) => None,
        Some(JoinKey::Natural) => None,
        Some(JoinKey::On) => {
            return Err(
                "JOIN ... ON is not supported. Since the only thing two cubes can join on is a shared (conformed) dimension, use USING (<dimension>).".to_string(),
            );
        },
        Some(JoinKey::Cross) => {
            return Err(
                "CROSS JOIN is not supported; these cubes are joined through a shared (conformed) dimension via USING (<dimension>).".to_string(),
            );
        },
        Some(JoinKey::Other) => {
            return Err(
                "Only INNER / LEFT / RIGHT / FULL [USING (...)] joins are supported.".to_string(),
            );
        },
    };
    assert(join_columns(query@.key()) == Ok::<Option<Seq<Seq<char>>>, Seq<char>>(using_model(using)));
    match query.joined() {
        Some(Some(other_name)) => match catalog.find_cube(other_name) {
            None => Err(cat3("Joined cube '", other_name, "' not found")),
            Some(place) => match find_join_dimension(
                name,
                cube,
                other_name,
                &catalog.cubes[place].1,
                using,
            ) {
                Ok(dimension) => Ok(
                    Some(JoinPlan { name: other_name.to_string(), place, dimension }),
                ),
                Err(e) => Err(e),
            },
        },
        _ => Ok(None),
    }
}

fn find_last_with_key(rows: &Vec<Vec<String>>, key: &str) -> (r: Option<usize>)
    requires
        forall|i: int| 0 <= i < rows@.len() ==> (#[trigger] rows@[i])@.len() > 0,
    ensures
        match r {
            Some(i) => last_with_key(rows_of(rows@), key@) == Some(i as int) && i < rows@.len(),
            None => last_with_key(rows_of(rows@), key@) is None,
        },
{
    let ghost all = rows_of(rows@);
    let mut n: usize = rows.len();
    assert(all.take(n as int) =~= all);
    while n > 0
        invariant
            n <= rows@.len(),
            all == rows_of(rows@),
            forall|i: int| 0 <= i < rows@.len() ==> (#[trigger] rows@[i])@.len() > 0,
            last_with_key(all, key@) == last_with_key(all.take(n as int), key@),
        decreases n,
    {
        assert(all.take(n as int).drop_last() =~= all.take(n as int - 1));
        assert(rows@[n as int - 1]@.len() > 0);
        assert(all[n as int - 1][0] == rows@[n as int - 1]@[0]@);
        if same(rows[n - 1][0].as_str(), key) {
            return Some(n - 1);
        }
        n -= 1;
    }
    None
}

fn find_last_text(names: &Vec<String>, name: &str) -> (r: Option<usize>)
    ensures
        match r {
            Some(i) => last_place_of(texts(names@), name@) == Some(i as int) && i < names@.len(),
            None => last_place_of(texts(names@), name@) is None && !texts(names@).contains(name@),
        },
{
    let ghost all = texts(names@);
    let mut n: usize = names.len();
    assert(all.take(n as int) =~= all);
    while n > 0
        invariant
            n <= names@.len(),
            all == texts(names@),
            last_place_of(all, name@) == last_place_of(all.take(n as int), name@),
            forall|k: int| n <= k < all.len() ==> all[k] != name@,
        decreases n,
    {
        assert(all.take(n as int).drop_last() =~= all.take(n as int - 1));
        assert(all[n as int - 1] == names@[n as int - 1]@);
        if same(names[n - 1].as_str(), name) {
            return Some(n - 1);
        }
        n -= 1;
    }
    None
}

/// Puts the attributes of a joined row into their columns.
fn enrich_row(
    headers: &Vec<String>,
    attributes: &Vec<String>,
    found: Option<&Vec<String>>,
    row: &mut Vec<String>,
)
    requires
        old(row)@.len() == headers@.len(),
        found matches Some(other) ==> other@.len() == attributes@.len() + 1,
        forall|k: int|
            0 <= k < attributes@.len() ==> texts(headers@).contains(#[trigger] texts(attributes@)[k]),
    ensures
        texts(final(row)@) == row_enriched(
            texts(headers@),
            texts(attributes@),
            match found {
                Some(other) => Some(texts(other@)),
                None => None,
            },
            texts(old(row)@),
            attributes@.len() as int,
        ),
{
    let ghost was = texts(row@);
    let ghost heads = texts(headers@);
    let ghost names = texts(attributes@);
    let ghost other_row = match found {
        Some(other) => Some(texts(other@)),
        None => None,
    };
    let mut i: usize = 0;
    while i < attributes.len()
        invariant
            i <= attributes@.len(),
            row@.len() == headers@.len(),
            found matches Some(other) ==> other@.len() == attributes@.len() + 1,
            heads == texts(headers@),
            names == texts(attributes@),
            other_row == (match found {
                Some(other) => Some(texts(other@)),
                None => None,
            }),
            forall|k: int|
                0 <= k < attributes@.len() ==> texts(headers@).contains(
                    #[trigger] texts(attributes@)[k],
                ),
            texts(row@) == row_enriched(heads, names, other_row, was, i as int),
        decreases attributes@.len() - i,
    {
        let ghost before = texts(row@);
        let name = attributes[i].as_str();
        assert(names[i as int] == name@);
        assert(names.contains(name@));
        let value = match found {
            Some(other) => match find_last_text(attributes, name) {
                Some(k) => {
                    assert(other_row->0[k as int + 1] == other@[k as int + 1]@);
                    other[k + 1].clone()
                },
                None => "-".to_string(),
            },
            None => "-".to_string(),
        };
        proof {
            place_of_is_first(heads, name@);
        }
        match find_text(headers, name) {
            Some(at) => {
                let ghost text = value@;
                row.set(at, value);
                assert(texts(row@) =~= before.update(at as int, text));
            },
            None => {},
        }
        i += 1;
    }
}

/// Puts the attributes that the rows of the joined cube have into the rows of a
/// result.
fn enrich(
    result: ResultSet,
    key_column: usize,
    attributes: &Vec<String>,
    others: &Vec<Vec<String>>,
) -> (r: ResultSet)
    requires
        key_column < result.headers@.len(),
        forall|i: int|
            0 <= i < result.rows@.len() ==> (#[trigger] result.rows@[i])@.len()
                == result.headers@.len(),
        forall|i: int|
            0 <= i < others@.len() ==> (#[trigger] others@[i])@.len() == attributes@.len() + 1,
        forall|k: int|
            0 <= k < attributes@.len() ==> result@.headers.contains(
                #[trigger] texts(attributes@)[k],
            ),
    ensures
        r@ == enriched(result@, key_column as int, texts(attributes@), rows_of(others@)),
{
    let ghost was = result@;
    let ghost whole = enriched(was, key_column as int, texts(attributes@), rows_of(others@));
    let headers = result.headers;
    let mut rows = result.rows;
    let ghost count = headers@.len();
    let mut i: usize = 0;
    while i < rows.len()
        invariant
            i <= rows@.len(),
            rows@.len() == was.rows.len(),
            was.headers == texts(headers@),
            key_column < headers@.len(),
            forall|k: int| 0 <= k < was.rows.len() ==> (#[trigger] was.rows[k]).len() == headers@.len(),
            forall|k: int|
                0 <= k < others@.len() ==> (#[trigger] others@[k])@.len() == attributes@.len() + 1,
            forall|k: int|
                0 <= k < attributes@.len() ==> texts(headers@).contains(
                    #[trigger] texts(attributes@)[k],
                ),
            whole == enriched(was, key_column as int, texts(attributes@), rows_of(others@)),
            forall|k: int| 0 <= k < i ==> #[trigger] rows_of(rows@)[k] == whole.rows[k],
            forall|k: int| i <= k < rows@.len() ==> #[trigger] rows_of(rows@)[k] == was.rows[k],
        decreases rows@.len() - i,
    {
        let ghost before = rows_of(rows@);
        assert(before[i as int] == was.rows[i as int]);
        assert(rows@[i as int]@.len() == headers@.len());
        assert(was.rows[i as int][key_column as int] == rows@[i as int]@[key_column as int]@);
        let found = match find_last_with_key(others, rows[i][key_column].as_str()) {
            Some(k) => {
                assert(rows_of(others@)[k as int] == texts(others@[k as int]@));
                Some(&others[k])
            },
            None => None,
        };
        enrich_row(&headers, attributes, found, &mut rows[i]);
        assert(rows_of(rows@) =~= before.update(i as int, whole.rows[i as int]));
        i += 1;
    }
    assert(rows_of(rows@) =~= whole.rows);
    ResultSet { headers, rows }
}

proof fn headers_hold_attributes<N: Number>(
    catalog: CatalogModel<N>,
    cube: CubeModel<N>,
    other: Option<CubeModel<N>>,
    columns: Seq<Seq<char>>,
)
    ensures
        columns_sorted_out(catalog, cube, other, columns) matches Ok(sorted) ==> forall|k: int|
            0 <= k < sorted.attributes.len() ==> sorted.headers.contains(
                #[trigger] sorted.attributes[k],
            ),
    decreases columns.len(),
{
    if columns.len() > 0 {
        headers_hold_attributes(catalog, cube, other, columns.drop_last());
        match columns_sorted_out(catalog, cube, other, columns.drop_last()) {
            Ok(before) => match column_added(catalog, cube, other, before, columns.last()) {
                Ok(after) => {
                    let name = column_name(columns.last());
                    assert(after.headers == before.headers.push(name));
                    assert(after.headers[before.headers.len() as int] == name);
                    assert forall|k: int|
                        0 <= k < after.attributes.len() implies after.headers.contains(
                        #[trigger] after.attributes[k],
                    ) by {
                        if k < before.attributes.len() {
                            assert(after.attributes[k] == before.attributes[k]);
                            let j = choose|j: int|
                                0 <= j < before.headers.len() && before.headers[j]
                                    == before.attributes[k];
                            assert(after.headers[j] == after.attributes[k]);
                        }
                    }
                },
                Err(e) => {},
            },
            Err(e) => {},
        }
    }
}

fn ask_attributes(dimension: &str, attributes: &Vec<String>) -> (r: SliceQuery)
    ensures
        r@ == attribute_query(dimension@, texts(attributes@)),
{
    let mut axes: Vec<String> = Vec::new();
    push_text(&mut axes, dimension.to_string());
    let mut columns: Vec<String> = Vec::new();
    push_text(&mut columns, dimension.to_string());
    append_texts(&mut columns, attributes);
    let r = SliceQuery {
        output_columns: columns,
        axes,
        requested_measures: copy_texts(attributes),
        filters: Vec::new(),
        axis_hierarchies: Vec::new(),
        column_dim_index: Vec::new(),
    };
    assert(r@ =~= attribute_query(dimension@, texts(attributes@)));
    r
}

// ---------------------------------------------------------------------------
// Executing
// ---------------------------------------------------------------------------

/// Answers a query.
fn select<N: Number>(catalog: &mut Catalog<N>, query: &SelectQuery) -> (r: Result<String, String>)
    requires
        old(catalog)@.valid(),
    ensures
        (final(catalog)@, answer(r)) == selected(old(catalog)@, query@),
        final(catalog)@.valid(),
{
    let name = match query.table() {
        None => {
            return Err("SELECT must include a FROM clause naming a cube.".to_string());
        },
        Some(None) => {
            return Err("Unsupported FROM clause.".to_string());
        },
        Some(Some(name)) => name,
    };
    let place = match catalog.find_cube(name) {
        None => {
            return Err(cat3("Cube '", name, "' not found"));
        },
        Some(place) => place,
    };
    let ghost was = catalog@;
    assert(was.cubes[place as int].1.fits(was.dims.len()));
    let plan = match plan_join(catalog, name, &catalog.cubes[place].1, query) {
        Ok(plan) => plan,
        Err(e) => {
            return Err(e);
        },
    };
    let ghost cube = was.cubes[place as int].1;
    let ghost join = plan_model(plan);
    let ghost other = match join {
        Some(j) => Some(was.cubes[j.place].1),
        None => None,
    };
    let other_cube = match &plan {
        Some(p) => {
            assert(was.cubes[p.place as int].1.fits(was.dims.len()));
            Some(&catalog.cubes[p.place].1)
        },
        None => None,
    };
    let (slice, attributes) = match plan_slice(
        catalog,
        &catalog.cubes[place].1,
        other_cube,
        query,
    ) {
        Ok(asked) => asked,
        Err(e) => {
            return Err(e);
        },
    };
    proof {
        headers_hold_attributes(was, cube, other, query@.columns);
    }
    let sliced = catalog.cubes[place].1.query_slice(&mut catalog.dimensions, &slice);
    let ghost dims = catalog@.dims;
    proof {
        cube.dims_ensured_len(was.dims, cube.dimensions.len() as int);
        assert forall|i: int| 0 <= i < catalog@.cubes.len() implies (
        #[trigger] catalog@.cubes[i]).1.fits(dims.len()) by {
            assert(was.cubes[i].1.fits(was.dims.len()));
        }
    }
    let result = match sliced {
        Ok(result) => result,
        Err(e) => {
            return Err(e);
        },
    };
    let p = match plan {
        Some(p) => p,
        None => {
            return Ok(show_result(result));
        },
    };
    if attributes.len() == 0 {
        return Ok(show_result(result));
    }
    let key_column = match find_text(&result.headers, p.dimension.as_str()) {
        Some(i) => i,
        None => {
            return Err(
                cat7(
                    "Cannot JOIN '",
                    name,
                    "' with '",
                    p.name.as_str(),
                    "': the conformed dimension '",
                    p.dimension.as_str(),
                    "' is not projected, so there is no key to join the attributes onto.",
                ),
            );
        },
    };
    let asked = ask_attributes(p.dimension.as_str(), &attributes);
    assert(catalog@.cubes[p.place as int].1.fits(dims.len()));
    let answered = catalog.cubes[p.place].1.query_slice(&mut catalog.dimensions, &asked);
    let ghost second = was.cubes[p.place as int].1;
    proof {
        second.dims_ensured_len(dims, second.dimensions.len() as int);
        assert forall|i: int| 0 <= i < catalog@.cubes.len() implies (
        #[trigger] catalog@.cubes[i]).1.fits(catalog@.dims.len()) by {
            assert(was.cubes[i].1.fits(was.dims.len()));
        }
    }
    let others = match answered {
        Ok(others) => others,
        Err(e) => {
            return Err(e);
        },
    };
    proof {
        assert forall|i: int| 0 <= i < result.rows@.len() implies (#[trigger] result.rows@[i])@.len()
            == result.headers@.len() by {
            assert(result@.rows[i].len() == slice@.columns.len());
            assert(texts(result.rows@[i]@) == result@.rows[i]);
        }
        assert forall|i: int| 0 <= i < others.rows@.len() implies (#[trigger] others.rows@[i])@.len()
            == attributes@.len() + 1 by {
            assert(others@.rows[i].len() == asked@.columns.len());
            assert(texts(others.rows@[i]@) == others@.rows[i]);
        }
        assert forall|k: int| 0 <= k < attributes@.len() implies result@.headers.contains(
            #[trigger] texts(attributes@)[k],
        ) by {
            let sorted = columns_sorted_out(was, cube, other, query@.columns)->Ok_0;
            assert(sorted.attributes == texts(attributes@));
            assert(sorted.headers.contains(sorted.attributes[k]));
            let j = choose|j: int|
                0 <= j < sorted.headers.len() && sorted.headers[j] == sorted.attributes[k];
            assert(result@.headers[j] == sorted.attributes[k]);
        }
    }
    Ok(show_result(enrich(result, key_column, &attributes, &others.rows)))
}

fn find_measure_column(columns: &Vec<(String, String)>) -> (r: Option<String>)
    ensures
        optional(r) == measure_column(columns_of(columns@)),
        optional(r) matches Some(name) ==> Seq::new(
            columns@.len(),
            |i: int| columns_of(columns@)[i].0,
        ).contains(name),
{
    let ghost all = columns_of(columns@);
    let ghost names = Seq::new(columns@.len(), |i: int| all[i].0);
    let mut n: usize = columns.len();
    assert(all.take(n as int) =~= all);
    while n > 0
        invariant
            n <= columns@.len(),
            all == columns_of(columns@),
            names == Seq::new(columns@.len(), |i: int| all[i].0),
            measure_column(all) == measure_column(all.take(n as int)),
        decreases n,
    {
        assert(all.take(n as int).drop_last() =~= all.take(n as int - 1));
        assert(all[n as int - 1] == (columns@[n as int - 1].0@, columns@[n as int - 1].1@));
        if same(to_uppercase(columns[n - 1].1.as_str()).as_str(), "MEASURE") {
            assert(names[n as int - 1] == columns@[n as int - 1].0@);
            return Some(columns[n - 1].0.clone());
        }
        n -= 1;
    }
    None
}

/// Creates a cube with a dimension for each column.
fn create_table<N: Number>(
    catalog: &mut Catalog<N>,
    name: &str,
    columns: &Vec<(String, String)>,
    is_aggregating: bool,
) -> (r: Result<String, String>)
    requires
        old(catalog)@.valid(),
    ensures
        (final(catalog)@, answer(r)) == table_created(
            old(catalog)@,
            name@,
            columns_of(columns@),
            is_aggregating,
        ),
        final(catalog)@.valid(),
{
    if catalog.get_cube(name).is_some() {
        return Err(cat3("Cube '", name, "' already exists."));
    }
    let ghost all = Seq::new(columns@.len(), |i: int| columns_of(columns@)[i].0);
    let mut names: Vec<&str> = Vec::new();
    let mut i: usize = 0;
    assert(words(names@) =~= all.take(0));
    while i < columns.len()
        invariant
            i <= columns@.len(),
            all == Seq::new(columns@.len(), |i: int| columns_of(columns@)[i].0),
            words(names@) == all.take(i as int),
        decreases columns@.len() - i,
    {
        let ghost done = words(names@);
        names.push(columns[i].0.as_str());
        assert(words(names@) =~= done.push(all[i as int]));
        assert(words(names@) =~= all.take(i as int + 1));
        i += 1;
    }
    assert(all.take(i as int) =~= all);
    let measure = find_measure_column(columns);
    catalog.add_cube(name, names.as_slice(), word(&measure), is_aggregating);
    match measure {
        Some(m) => Ok(cat4("Cube '", name, "' created. Measure dimension: ", m.as_str())),
        None => Ok(cat3("Cube '", name, "' created with no explicit measure dimension.")),
    }
}

/// Stores one row.
fn insert_row<N: Number>(
    cube: &mut Cube<N>,
    dims: &mut Vec<Dimension<N>>,
    row: &Vec<String>,
) -> (r: Result<usize, String>)
    requires
        old(cube)@.fits(old(dims)@.len()),
    ensures
        final(dims)@.len() == old(dims)@.len(),
        ({
            let (after, dims_after, outcome) = row_inserted(
                old(cube)@,
                dims_of(old(dims)@),
                texts(row@),
                InsertModel { rows: 0, spread: 0 },
            );
            &&& final(cube)@ == after
            &&& dims_of(final(dims)@) == dims_after
            &&& match r {
                Ok(n) => outcome == Ok::<InsertModel, Seq<char>>(
                    InsertModel { rows: 1, spread: n as int },
                ),
                Err(e) => outcome == Err::<InsertModel, Seq<char>>(e@),
            }
        }),
{
    let count = cube.dimension_names.len();
    if row.len() == 0 || row.len() - 1 != count {
        return Err(
            cat4(
                "Expected ",
                decimal_text(count as u128 + 1).as_str(),
                " values, got ",
                decimal_text(row.len() as u128).as_str(),
            ),
        );
    }
    let ghost all = unquoted(texts(row@).take(count as int));
    let mut members: Vec<String> = Vec::new();
    let mut i: usize = 0;
    assert(texts(members@) =~= all.take(0));
    while i < count
        invariant
            i <= count,
            row@.len() == count + 1,
            all == unquoted(texts(row@).take(count as int)),
            texts(members@) == all.take(i as int),
        decreases count - i,
    {
        push_text(&mut members, remove_char(row[i].as_str(), '\''));
        assert(texts(members@) =~= all.take(i as int + 1));
        i += 1;
    }
    assert(all.take(i as int) =~= all);
    let last = row[count].as_str();
    assert(texts(row@).last() == last@);
    let value = CellValue::read(last, remove_char(last, '\''));
    let refs = slices(&members);
    match &value {
        CellValue::Numeric(n) => {
            if cube.has_consolidated_coordinate(dims, refs.as_slice()) {
                let amount = *n;
                return cube.write_splashed(dims, refs.as_slice(), amount, SplashMode::Replace);
            }
        },
        CellValue::String(_) => {},
    }
    cube.write(dims, refs.as_slice(), value);
    Ok(0)
}

proof fn rows_stay_failed<N: Number>(
    cube: CubeModel<N>,
    dims: Seq<DimensionModel<N>>,
    rows: Seq<Seq<Seq<char>>>,
    n: int,
    end: int,
)
    requires
        0 <= n <= end,
        rows_inserted(cube, dims, rows, n).2 is Err,
    ensures
        rows_inserted(cube, dims, rows, end) == rows_inserted(cube, dims, rows, n),
    decreases end - n,
{
    if n < end {
        rows_stay_failed(cube, dims, rows, n + 1, end);
    }
}

/// Stores rows in a cube.
fn insert_into<N: Number>(
    catalog: &mut Catalog<N>,
    name: &str,
    rows: Option<&Vec<Vec<String>>>,
) -> (r: Result<String, String>)
    requires
        old(catalog)@.valid(),
    ensures
        (final(catalog)@, answer(r)) == inserted_into(
            old(catalog)@,
            name@,
            match rows {
                Some(rows) => Some(rows_of(rows@)),
                None => None,
            },
        ),
        final(catalog)@.valid(),
{
    let place = match catalog.find_cube(name) {
        Some(place) => place,
        None => {
            return Err(cat3("Cube '", name, "' not found"));
        },
    };
    let list = match rows {
        Some(list) => list,
        None => {
            return Err(
                "Invalid INSERT format. Use: INSERT INTO cube VALUES ('dim1', 'dim2', 100)".to_string(),
            );
        },
    };
    let ghost was = catalog@;
    let ghost cube = was.cubes[place as int].1;
    let ghost all = rows_of(list@);
    assert(cube.fits(was.dims.len()));
    assert(catalog@.cubes =~= was.cubes.update(place as int, (was.cubes[place as int].0, cube)));
    let mut spread: u128 = 0;
    let mut i: usize = 0;
    while i < list.len()
        invariant
            i <= list@.len(),
            rows == Some(list),
            was == old(catalog)@,
            was.cube_place(name@) == Some(place as int),
            place < catalog.cubes@.len(),
            place < was.cubes.len(),
            was.valid(),
            all == rows_of(list@),
            cube == was.cubes[place as int].1,
            catalog.dimensions@.len() == was.dims.len(),
            catalog@.cubes == was.cubes.update(
                place as int,
                (was.cubes[place as int].0, catalog@.cubes[place as int].1),
            ),
            catalog@.cubes[place as int].1.fits(was.dims.len()),
            rows_inserted(cube, was.dims, all, i as int) == (
                catalog@.cubes[place as int].1,
                catalog@.dims,
                Ok::<InsertModel, Seq<char>>(InsertModel { rows: i as int, spread: spread as int }),
            ),
            spread <= i * 0xffff_ffff_ffff_ffff,
        decreases list@.len() - i,
    {
        let ghost before = catalog@;
        assert(all[i as int] == texts(list@[i as int]@));
        assert(before.cubes[place as int].1 == catalog.cubes@[place as int].1@);
        let stored = insert_row(&mut catalog.cubes[place].1, &mut catalog.dimensions, &list[i]);
        assert(catalog@.cubes =~= before.cubes.update(
            place as int,
            (before.cubes[place as int].0, catalog@.cubes[place as int].1),
        ));
        assert(catalog@.cubes =~= was.cubes.update(
            place as int,
            (was.cubes[place as int].0, catalog@.cubes[place as int].1),
        ));
        match stored {
            Ok(n) => {
                assert(n <= 0xffff_ffff_ffff_ffff);
                assert(i < 0xffff_ffff_ffff_ffff);
                spread += n as u128;
            },
            Err(e) => {
                proof {
                    rows_stay_failed(cube, was.dims, all, i as int + 1, all.len() as int);
                    assert forall|k: int| 0 <= k < catalog@.cubes.len() implies (
                    #[trigger] catalog@.cubes[k]).1.fits(catalog@.dims.len()) by {
                        assert(was.cubes[k].1.fits(was.dims.len()));
                    }
                }
                return Err(e);
            },
        }
        i += 1;
    }
    proof {
        assert forall|k: int| 0 <= k < catalog@.cubes.len() implies (
        #[trigger] catalog@.cubes[k]).1.fits(catalog@.dims.len()) by {
            assert(was.cubes[k].1.fits(was.dims.len()));
        }
    }
    let news = cat4("Upserted ", decimal_text(i as u128).as_str(), " row(s) into '", name);
    if spread > 0 {
        Ok(
            cat4(
                news.as_str(),
                "' (splashed across ",
                decimal_text(spread).as_str(),
                " leaf cell(s)).",
            ),
        )
    } else {
        Ok(cat2(news.as_str(), "'."))
    }
}

/// Executes a statement. A cube made by it sums up or does not.
pub fn execute_statement<N: Number>(
    catalog: &mut Catalog<N>,
    statement: &SqlStatement,
    is_aggregating: bool,
) -> (r: Result<String, String>)
    requires
        old(catalog)@.valid(),
    ensures
        (final(catalog)@, answer(r)) == statement_executed(
            old(catalog)@,
            statement@,
            is_aggregating,
        ),
        final(catalog)@.valid(),
{
    match statement {
        SqlStatement::Select(query) => select(catalog, query),
        SqlStatement::OtherQuery => Err("Unsupported SELECT format.".to_string()),
        SqlStatement::CreateTable(name, columns) => create_table(
            catalog,
            name.as_str(),
            columns,
            is_aggregating,
        ),
        SqlStatement::Insert(name, rows) => {
            let rows = match rows {
                Some(rows) => Some(rows),
                None => None,
            };
            insert_into(catalog, name.as_str(), rows)
        },
        SqlStatement::Other => Err("Unsupported SQL command.".to_string()),
    }
}

/// What follows the first bytes of a text, if it can be cut there.
fn cut_after(text: &str, count: u128) -> (r: Option<String>)
    ensures
        match r {
            Some(rest) => chars_in_bytes(text@, count as int) is Some && rest@ == after_bytes(
                text@,
                count as int,
            ),
            None => chars_in_bytes(text@, count as int) is None,
        },
{
    let chars = chars_of(text);
    match char_count_in_bytes(&chars, count) {
        Some(n) => {
            assert(chars@.subrange(n as int, chars@.len() as int) =~= text@.skip(n as int));
            Some(text_between(&chars, n, chars.len()))
        },
        None => None,
    }
}

/// Cuts a text where ` IN ` stands in its upper-case form: none where it is not
/// there, and where it cannot be cut the inner none.
fn cut_at_in(text: &str) -> (r: Option<Option<(String, String)>>)
    ensures
        match r {
            Some(Some((hierarchy, dimension))) => can_cut(text@) && hierarchy_and_dimension(text@)
                == Some((hierarchy@, dimension@)),
            Some(None) => !can_cut(text@),
            None => can_cut(text@) && hierarchy_and_dimension(text@) is None,
        },
{
    let upper = to_uppercase(text);
    match find(upper.as_str(), " IN ") {
        Some(i) => {
            let upper_chars = chars_of(upper.as_str());
            let at = bytes_in_chars(&upper_chars, i);
            let chars = chars_of(text);
            match (char_count_in_bytes(&chars, at), cut_after(text, at + 4)) {
                (Some(n), Some(rest)) => {
                    assert(chars@.subrange(0, n as int) =~= text@.take(n as int));
                    let head = text_between(&chars, 0, n);
                    Some(Some((trim(head.as_str()), trim(rest.as_str()))))
                },
                _ => Some(None),
            }
        },
        None => None,
    }
}

/// Executes the first statement of a text, if there is one that the parser can
/// be asked for.
fn execute_text<N: Number>(catalog: &mut Catalog<N>, text: &str, is_aggregating: bool) -> (r: Option<
    Result<String, String>,
>)
    requires
        old(catalog)@.valid(),
    ensures
        final(catalog)@.valid(),
        match r {
            Some(outcome) => statement_ready(text@) && (final(catalog)@, answer(outcome))
                == text_executed(old(catalog)@, text@, is_aggregating),
            None => !statement_ready(text@) && final(catalog)@ == old(catalog)@,
        },
{
    let sql = put_insert(text);
    if !parser_takes(sql.as_str()) {
        return None;
    }
    match read_first(sql.as_str()) {
        Ok(Some(statement)) => Some(execute_statement(catalog, &statement, is_aggregating)),
        Ok(None) => None,
        Err(e) => Some(Err(cat2("SQL Parse Error: ", e.as_str()))),
    }
}

/// Executes a text that may hold no statement, or one that the parser cannot be
/// asked to read: none where it does, and nothing changes.
pub fn try_execute_sql<N: Number>(catalog: &mut Catalog<N>, sql_query: &str) -> (r: Option<
    Result<String, String>,
>)
    requires
        old(catalog)@.valid(),
    ensures
        final(catalog)@.valid(),
        match r {
            Some(outcome) => sql_ready(sql_query@) && (final(catalog)@, answer(outcome))
                == sql_executed(old(catalog)@, sql_query@),
            None => !sql_ready(sql_query@) && final(catalog)@ == old(catalog)@,
        },
{
    let text = trim(sql_query);
    let upper = to_uppercase(text.as_str());
    if starts_with(upper.as_str(), "CREATE DIMENSION") {
        let rest = match cut_after(sql_query, 16) {
            Some(rest) => rest,
            None => {
                return None;
            },
        };
        let name = trim_end_char(trim(rest.as_str()).as_str(), ';');
        catalog.get_or_create_dimension(name.as_str());
        return Some(Ok(cat3("Dimension '", name.as_str(), "' created successfully.")));
    }
    if starts_with(upper.as_str(), "CREATE HIERARCHY") {
        let rest = match cut_after(sql_query, 16) {
            Some(rest) => rest,
            None => {
                return None;
            },
        };
        let said = trim(trim_end_char(trim(rest.as_str()).as_str(), ';').as_str());
        let (hierarchy, dimension) = match cut_at_in(said.as_str()) {
            Some(Some(parts)) => parts,
            Some(None) => {
                return None;
            },
            None => {
                return Some(
                    Err("Usage: CREATE HIERARCHY <hierarchy> IN <dimension>".to_string()),
                );
            },
        };
        if chars_of(hierarchy.as_str()).len() == 0 || chars_of(dimension.as_str()).len() == 0 {
            return Some(Err("Usage: CREATE HIERARCHY <hierarchy> IN <dimension>".to_string()));
        }
        return match catalog.create_hierarchy(dimension.as_str(), hierarchy.as_str()) {
            Ok(owner) => Some(
                Ok(
                    cat5(
                        "Hierarchy '",
                        hierarchy.as_str(),
                        "' created in dimension '",
                        owner.as_str(),
                        "'.",
                    ),
                ),
            ),
            Err(e) => Some(Err(e)),
        };
    }
    if starts_with(upper.as_str(), "CREATE ATTRIBUTE TABLE") {
        let rest = match cut_after(text.as_str(), 22) {
            Some(rest) => rest,
            None => {
                return None;
            },
        };
        return execute_text(catalog, cat2("CREATE TABLE ", rest.as_str()).as_str(), false);
    }
    execute_text(catalog, text.as_str(), true)
}

/// Executes a statement of SQL: `SELECT`, `CREATE TABLE` and `INSERT`, and the
/// engine's own `CREATE DIMENSION`, `CREATE HIERARCHY` and `CREATE ATTRIBUTE
/// TABLE`. The text has to hold one.
pub fn execute_sql<N: Number>(catalog: &mut Catalog<N>, sql_query: &str) -> (r: Result<
    String,
    String,
>)
    requires
        old(catalog)@.valid(),
        sql_ready(sql_query@),
    ensures
        (final(catalog)@, answer(r)) == sql_executed(old(catalog)@, sql_query@),
        final(catalog)@.valid(),
{
    try_execute_sql(catalog, sql_query).unwrap()
}

} // verus!
