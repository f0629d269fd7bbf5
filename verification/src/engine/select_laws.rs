//! What a query answers.

use crate::catalog::catalog::{dim_names, CatalogModel};
use crate::catalog::laws::in_place_over;
use crate::cube::cube::{split, CubeModel};
use crate::cube::slice::{ResultModel, SliceModel};
use crate::cube::splash_laws::exact_arithmetic;
use crate::cube::sum_laws::value_query;
use crate::engine::sql::{
    column_added, column_name, columns_sorted_out, filters_by_dimension, has_attribute, hierarchy_axis,
    measure_named, qualified, selected, slice_asked, unquoted, where_added, with_defaults,
    ColumnsModel,
};
use crate::engine::syntax::{FilterModel, QueryModel};
use crate::number::Number;
use crate::storage::name_map::{keys, lookup, lookup_after_put, lookup_found, put};
use crate::text::{
    after_last, last_index_of, lowercase, place_of, place_of_is_first, trimmed_end, trimmed_start,
    without,
};
use vstd::prelude::*;

verus! {

// ---------------------------------------------------------------------------
// Conditions
// ---------------------------------------------------------------------------

/// The condition that each of the first `n` columns equals its value.
pub open spec fn all_equal(columns: Seq<Seq<char>>, values: Seq<Seq<char>>, n: int) -> FilterModel
    decreases n,
{
    if n <= 1 {
        FilterModel::Equal(columns[0], values[0])
    } else {
        FilterModel::And(
            Box::new(all_equal(columns, values, n - 1)),
            Box::new(FilterModel::Equal(columns[n - 1], values[n - 1])),
        )
    }
}

/// A filter of one value for each of the columns.
pub open spec fn one_each(columns: Seq<Seq<char>>, values: Seq<Seq<char>>, n: int) -> Seq<
    (Seq<char>, Seq<Seq<char>>),
> {
    Seq::new(n as nat, |i: int| (columns[i], seq![without(values[i], '\'')]))
}

proof fn new_column_is_put(columns: Seq<Seq<char>>, values: Seq<Seq<char>>, n: int)
    requires
        0 <= n < columns.len(),
        columns.no_duplicates(),
    ensures
        lookup(one_each(columns, values, n), columns[n]) is None,
        put(one_each(columns, values, n), columns[n], seq![without(values[n], '\'')]) == one_each(
            columns,
            values,
            n + 1,
        ),
{
    let before = one_each(columns, values, n);
    place_of_is_first(keys(before), columns[n]);
    if place_of(keys(before), columns[n]) is Some {
        let i = place_of(keys(before), columns[n])->0;
        assert(columns[i] == columns[n]);
    }
    assert(before.push((columns[n], seq![without(values[n], '\'')])) =~= one_each(
        columns,
        values,
        n + 1,
    ));
}

/// The filters of such a condition.
proof fn equal_columns_filter(columns: Seq<Seq<char>>, values: Seq<Seq<char>>, n: int)
    requires
        1 <= n <= columns.len(),
        columns.no_duplicates(),
    ensures
        where_added(Seq::empty(), all_equal(columns, values, n)) == Ok::<
            Seq<(Seq<char>, Seq<Seq<char>>)>,
            Seq<char>,
        >(one_each(columns, values, n)),
    decreases n,
{
    reveal_with_fuel(where_added, 3);
    new_column_is_put(columns, values, n - 1);
    if n == 1 {
        assert(one_each(columns, values, 0) =~= Seq::<(Seq<char>, Seq<Seq<char>>)>::empty());
    } else {
        equal_columns_filter(columns, values, n - 1);
    }
}

/// The name of a dimension means the dimension.
proof fn a_dimension_is_named<N: Number>(catalog: CatalogModel<N>, place: int)
    requires
        0 <= place < catalog.dims.len(),
    ensures
        catalog.reference_named(catalog.dims[place].name) == Some(
            (catalog.dims[place].name, None::<Seq<char>>),
        ),
{
    let name = catalog.dims[place].name;
    place_of_is_first(dim_names(catalog.dims), name);
    assert(dim_names(catalog.dims)[place] == name);
}

/// Filters by the names of dimensions are filters of those dimensions.
proof fn filters_of_dimensions<N: Number>(
    catalog: CatalogModel<N>,
    cube: CubeModel<N>,
    values: Seq<Seq<char>>,
    n: int,
)
    requires
        in_place_over(cube, catalog.dims),
        cube.dimension_names.no_duplicates(),
        0 <= n <= cube.dimension_names.len(),
    ensures
        filters_by_dimension(catalog, cube, one_each(cube.dimension_names, values, n)) == Ok::<
            Seq<(Seq<char>, Seq<Seq<char>>)>,
            Seq<char>,
        >(one_each(cube.dimension_names, values, n)),
    decreases n,
{
    let names = cube.dimension_names;
    let filters = one_each(names, values, n);
    if n == 0 {
        assert(filters =~= Seq::<(Seq<char>, Seq<Seq<char>>)>::empty());
    } else {
        assert(filters.drop_last() =~= one_each(names, values, n - 1));
        filters_of_dimensions(catalog, cube, values, n - 1);
        assert(cube.dimensions[n - 1] < catalog.dims.len());
        a_dimension_is_named(catalog, cube.dimensions[n - 1] as int);
        new_column_is_put(names, values, n - 1);
    }
}

/// What is not mentioned goes by its default: a dimension that has no filter, is not
/// shown and is not that of the measures is limited to its default member, if it has
/// one. All other filters stay as they are.
pub proof fn unmentioned_dimensions_go_by_their_default<N: Number>(
    catalog: CatalogModel<N>,
    cube: CubeModel<N>,
    axes: Seq<Seq<char>>,
    filters: Seq<(Seq<char>, Seq<Seq<char>>)>,
    n: int,
    name: Seq<char>,
)
    requires
        cube.dimension_names.no_duplicates(),
        0 <= n <= cube.dimension_names.len(),
    ensures
        lookup(with_defaults(catalog, cube, axes, filters, n), name) == (if lookup(
            filters,
            name,
        ) is Some {
            lookup(filters, name)
        } else {
            match place_of(cube.dimension_names, name) {
                Some(i) => if i < n && cube.measure_dimension != Some(name) && !axes.contains(name)
                    && cube.dim(catalog.dims, i).default_member_id is Some {
                    Some(
                        seq![
                            cube.dim(catalog.dims, i).name_of(
                                cube.dim(catalog.dims, i).default_member_id->0,
                            ),
                        ],
                    )
                } else {
                    None
                },
                None => None,
            }
        }),
    decreases n,
{
    place_of_is_first(cube.dimension_names, name);
    if n > 0 {
        unmentioned_dimensions_go_by_their_default(catalog, cube, axes, filters, n - 1, name);
        let last = cube.dimension_names[n - 1];
        unmentioned_dimensions_go_by_their_default(catalog, cube, axes, filters, n - 1, last);
        place_of_is_first(cube.dimension_names, last);
        let before = with_defaults(catalog, cube, axes, filters, n - 1);
        let dim = cube.dim(catalog.dims, n - 1);
        assert(place_of(cube.dimension_names, last) == Some(n - 1)) by {
            let i = place_of(cube.dimension_names, last)->0;
            assert(cube.dimension_names.contains(last));
            assert(cube.dimension_names[i] == last);
        }
        if dim.default_member_id is Some {
            lookup_after_put(before, last, seq![dim.name_of(dim.default_member_id->0)], name);
        }
        match place_of(cube.dimension_names, name) {
            Some(i) => {
                if i == n - 1 {
                    assert(name == last);
                }
            },
            None => {
                assert(name != last);
            },
        }
    }
}

/// Nothing is added where every dimension has a filter.
proof fn no_defaults<N: Number>(
    catalog: CatalogModel<N>,
    cube: CubeModel<N>,
    axes: Seq<Seq<char>>,
    filters: Seq<(Seq<char>, Seq<Seq<char>>)>,
    n: int,
)
    requires
        0 <= n <= cube.dimension_names.len(),
        forall|i: int|
            0 <= i < cube.dimension_names.len() ==> lookup(
                filters,
                #[trigger] cube.dimension_names[i],
            ) is Some,
    ensures
        with_defaults(catalog, cube, axes, filters, n) == filters,
    decreases n,
{
    if n > 0 {
        no_defaults(catalog, cube, axes, filters, n - 1);
        assert(lookup(filters, cube.dimension_names[n - 1]) is Some);
    }
}

// ---------------------------------------------------------------------------
// One value
// ---------------------------------------------------------------------------

proof fn value_is_a_name()
    ensures
        column_name("value"@) == "value"@,
{
    reveal_strlit("value");
    let text = "value"@;
    plain_stays(text);
    assert(trimmed_start(text) == text);
    assert(trimmed_end(text) == text);
}

/// Nothing is cut off a text without a dot.
proof fn plain_stays(text: Seq<char>)
    requires
        forall|i: int| 0 <= i < text.len() ==> text[i] != '.',
    ensures
        after_last(text, '.') == text,
    decreases text.len(),
{
    if text.len() > 0 {
        plain_stays(text.drop_last());
        assert(text.last() == text[text.len() - 1]);
        assert(text.drop_last().push(text.last()) =~= text);
    }
}

/// A query for the value at one member of each dimension is answered with what the
/// cells add up to there, each by the product of the weights of its members.
///
/// The cube has to sum up, to have a number there and nothing but numbers, and one
/// measure at most; nothing else of the database may be called by the name of the
/// value.
pub proof fn a_query_for_the_value_answers_the_sum<N: Number>(
    catalog: CatalogModel<N>,
    query: QueryModel,
    name: Seq<char>,
    values: Seq<Seq<char>>,
)
    requires
        exact_arithmetic::<N>(),
        catalog.cube(name) is Some,
        in_place_over(catalog.cube(name)->0, catalog.dims),
        query.table() == Some(Some(name)),
        query.join() is None,
        query.columns == seq!["value"@],
        ({
            let cube = catalog.cube(name)->0;
            let dims = cube.dims_ensured(catalog.dims, cube.dimensions.len() as int);
            let members = unquoted(values);
            &&& cube.is_aggregating
            &&& cube.dimension_names.no_duplicates()
            &&& values.len() == cube.dimension_names.len() >= 1
            &&& query.filter == Some(
                all_equal(cube.dimension_names, values, values.len() as int),
            )
            &&& !cube.dimension_names.contains("value"@)
            &&& catalog.reference_named("value"@) is None
            &&& measure_named(catalog, cube, "value"@) is None
            &&& forall|i: int|
                0 <= i < members.len() ==> (#[trigger] cube.resolutions(dims, members)[i]).len()
                    > 0
            &&& cube.measure_place() matches Some(m) ==> cube.resolutions(dims, members)[m].len()
                == 1
            &&& forall|path: Seq<u32>| #[trigger]
                cube.cells.contains_key(path) && cube.below(dims, members, path)
                    ==> cube.cells[path] is Numeric
            &&& exists|path: Seq<u32>| #[trigger]
                cube.cells.contains_key(path) && cube.below(dims, members, path)
        }),
    ensures
        ({
            let cube = catalog.cube(name)->0;
            let (after, answer) = selected(catalog, query);
            answer == Ok::<Seq<char>, Seq<char>>(
                cube.computed(after.dims, unquoted(values)).shown_spec(),
            )
        }),
{
    let cube = catalog.cube(name)->0;
    place_of_is_first(keys(catalog.cubes), lowercase(name));
    let dims = cube.dims_ensured(catalog.dims, cube.dimensions.len() as int);
    let members = unquoted(values);
    let names = cube.dimension_names;
    let n = values.len() as int;
    cube.dims_ensured_len(catalog.dims, cube.dimensions.len() as int);
    let columns = query.columns;
    assert(columns.drop_last() =~= Seq::<Seq<char>>::empty());
    assert(columns.last() == "value"@);
    value_is_a_name();
    place_of_is_first(names, "value"@);
    let none: Option<CubeModel<N>> = None;
    let sorted = columns_sorted_out(catalog, cube, none, columns);
    assert(columns_sorted_out(catalog, cube, none, columns.drop_last()) == Ok::<
        ColumnsModel,
        Seq<char>,
    >(ColumnsModel::empty()));
    let headers = Seq::<Seq<char>>::empty().push("value"@);
    assert(sorted == Ok::<ColumnsModel, Seq<char>>(
        ColumnsModel { headers, ..ColumnsModel::empty() },
    ));
    assert(headers[0] == "value"@);
    equal_columns_filter(names, values, n);
    filters_of_dimensions(catalog, cube, values, n);
    let filters = one_each(names, values, n);
    assert forall|i: int| 0 <= i < names.len() implies lookup(filters, #[trigger] names[i]) is Some by {
        lookup_found(filters, names[i]);
        assert(filters[i].0 == names[i]);
    }
    no_defaults(catalog, cube, Seq::empty(), filters, n);
    let slice = value_query(names, members);
    assert(slice.filters =~= filters);
    assert(headers =~= seq!["value"@]);
    let asked = SliceModel {
        columns: headers,
        axes: Seq::empty(),
        measures: Seq::empty(),
        filters,
        axis_hierarchies: Seq::empty(),
        column_dims: Seq::empty(),
    };
    assert(asked =~= slice);
    cube.one_value_is_the_sum(dims, members);
    let shown = cube.computed(dims, members).shown_spec();
    let result = ResultModel { headers: seq!["value"@], rows: seq![seq![shown]] };
    assert(cube.slice(dims, slice) == Ok::<ResultModel, Seq<char>>(result));
    assert(result.rows[0] == seq![shown]);
    assert(result.rows[0][0] == shown);
}

// ---------------------------------------------------------------------------
// Hierarchies
// ---------------------------------------------------------------------------

/// The last colon parts the name of a hierarchy from that of a member.
pub proof fn a_colon_parts_hierarchy_and_member(hierarchy: Seq<char>, member: Seq<char>)
    requires
        hierarchy.len() > 0,
        member.len() > 0,
        !member.contains(':'),
    ensures
        split(hierarchy + ":"@ + member) == (Some(hierarchy), member),
{
    reveal_strlit(":");
    let colon = ":"@;
    assert(colon =~= seq![':']);
    colon_is_found(hierarchy, member, member.len() as int);
    let whole = hierarchy + colon + member;
    assert(member.take(member.len() as int) =~= member);
    assert(whole.take(hierarchy.len() as int) =~= hierarchy);
    assert(whole.skip(hierarchy.len() as int + 1) =~= member);
}

proof fn colon_is_found(hierarchy: Seq<char>, member: Seq<char>, n: int)
    requires
        !member.contains(':'),
        0 <= n <= member.len(),
    ensures
        last_index_of(hierarchy + seq![':'] + member.take(n), ':') == Some(hierarchy.len() as int),
    decreases n,
{
    let whole = hierarchy + seq![':'] + member.take(n);
    if n > 0 {
        colon_is_found(hierarchy, member, n - 1);
        assert(whole.drop_last() =~= hierarchy + seq![':'] + member.take(n - 1));
        assert(whole.last() == member[n - 1]);
        assert(member.contains(member[n - 1]));
    } else {
        assert(whole.last() == ':');
    }
}

/// A condition on a hierarchy is one on the dimension that has it, on the member of that
/// hierarchy.
pub proof fn a_hierarchy_is_filtered_by_its_members<N: Number>(
    catalog: CatalogModel<N>,
    cube: CubeModel<N>,
    column: Seq<char>,
    dimension: Seq<char>,
    hierarchy: Seq<char>,
    value: Seq<char>,
)
    requires
        catalog.reference_named(column) == Some((dimension, Some(hierarchy))),
        catalog.reference_named(dimension) == Some((dimension, None::<Seq<char>>)),
        cube.measure_dimension != Some(dimension),
    ensures
        filters_by_dimension(catalog, cube, seq![(column, seq![value])]) == filters_by_dimension(
            catalog,
            cube,
            seq![(dimension, seq![hierarchy + ":"@ + value])],
        ),
{
    let one = seq![(column, seq![value])];
    let other = seq![(dimension, seq![hierarchy + ":"@ + value])];
    assert(one.drop_last() =~= Seq::<(Seq<char>, Seq<Seq<char>>)>::empty());
    assert(other.drop_last() =~= Seq::<(Seq<char>, Seq<Seq<char>>)>::empty());
    assert(filters_by_dimension(catalog, cube, one.drop_last()) == filters_by_dimension(
        catalog,
        cube,
        other.drop_last(),
    ));
    assert(one.last() == (column, seq![value]));
    assert(other.last() == (dimension, seq![hierarchy + ":"@ + value]));
    assert(qualified(hierarchy, seq![value]) =~= seq![hierarchy + ":"@ + value]);
}

/// A condition on a column by name and one by a list of one value come to the same, and
/// of two conditions on one column the later counts.
pub proof fn the_later_condition_counts(
    filters: Seq<(Seq<char>, Seq<Seq<char>>)>,
    column: Seq<char>,
    value: Seq<char>,
    before: FilterModel,
    other: Seq<char>,
)
    requires
        where_added(filters, before) is Ok,
    ensures
        ({
            let equal = FilterModel::Equal(column, value);
            let both = where_added(
                filters,
                FilterModel::And(Box::new(before), Box::new(equal)),
            );
            let first = where_added(filters, before)->Ok_0;
            &&& where_added(filters, equal) == where_added(
                filters,
                FilterModel::OneOf(column, seq![value], false),
            )
            &&& both is Ok
            &&& lookup(both->Ok_0, column) == Some(seq![without(value, '\'')])
            &&& other != column ==> lookup(both->Ok_0, other) == lookup(first, other)
        }),
{
    reveal_with_fuel(where_added, 3);
    assert(unquoted(seq![value]) =~= seq![without(value, '\'')]);
    let first = where_added(filters, before)->Ok_0;
    lookup_after_put(first, column, seq![without(value, '\'')], column);
    lookup_after_put(first, column, seq![without(value, '\'')], other);
}

/// Conditions on a dimension and on one of its hierarchies come together: every value of
/// either is let through.
pub proof fn conditions_on_one_dimension_come_together<N: Number>(
    catalog: CatalogModel<N>,
    cube: CubeModel<N>,
    column: Seq<char>,
    dimension: Seq<char>,
    hierarchy: Seq<char>,
    values: Seq<Seq<char>>,
    others: Seq<Seq<char>>,
)
    requires
        catalog.reference_named(column) == Some((dimension, Some(hierarchy))),
        catalog.reference_named(dimension) == Some((dimension, None::<Seq<char>>)),
        cube.measure_dimension != Some(dimension),
    ensures
        ({
            let both = filters_by_dimension(
                catalog,
                cube,
                seq![(dimension, values), (column, others)],
            );
            let through = lookup(both->Ok_0, dimension)->0;
            &&& both is Ok
            &&& lookup(both->Ok_0, dimension) is Some
            &&& through.len() == values.len() + others.len()
            &&& forall|i: int| 0 <= i < values.len() ==> #[trigger] through.contains(values[i])
            &&& forall|i: int|
                0 <= i < others.len() ==> through.contains(hierarchy + ":"@ + #[trigger] others[i])
        }),
{
    reveal_with_fuel(filters_by_dimension, 3);
    let first = seq![(dimension, values)];
    let all = seq![(dimension, values), (column, others)];
    let none = Seq::<(Seq<char>, Seq<Seq<char>>)>::empty();
    assert(all.drop_last() =~= first);
    assert(first.drop_last() =~= none);
    assert(all.last() == (column, others));
    assert(first.last() == (dimension, values));
    place_of_is_first(keys(none), dimension);
    assert(lookup(none, dimension) is None);
    let one = put(none, dimension, values);
    lookup_after_put(none, dimension, values, dimension);
    let named = qualified(hierarchy, others);
    lookup_after_put(one, dimension, values + named, dimension);
    let through = values + named;
    assert forall|i: int| 0 <= i < values.len() implies #[trigger] through.contains(values[i]) by {
        assert(through[i] == values[i]);
    }
    assert forall|i: int| 0 <= i < others.len() implies through.contains(
        hierarchy + ":"@ + #[trigger] others[i],
    ) by {
        assert(through[values.len() + i] == hierarchy + ":"@ + others[i]);
    }
}

/// The name is that of a measure, and of neither a dimension nor a hierarchy of the cube.
pub open spec fn is_measure<N: Number>(
    catalog: CatalogModel<N>,
    cube: CubeModel<N>,
    name: Seq<char>,
) -> bool {
    &&& !cube.dimension_names.contains(name)
    &&& hierarchy_axis(catalog, cube, name) is None
    &&& measure_named(catalog, cube, name) is Some
}

/// The columns that are asked for are shown in that order; the dimensions among them are
/// among the axes, and what names a measure gives the measures the name that it has.
pub proof fn columns_come_as_asked<N: Number>(
    catalog: CatalogModel<N>,
    cube: CubeModel<N>,
    other: Option<CubeModel<N>>,
    query: QueryModel,
)
    requires
        slice_asked(catalog, cube, other, query) is Ok,
    ensures
        ({
            let (slice, attributes) = slice_asked(catalog, cube, other, query)->Ok_0;
            let asked = query.columns;
            &&& asked.len() <= slice.columns.len() <= asked.len() + 1
            &&& asked.len() < slice.columns.len() ==> slice.columns.last() == "value"@
            &&& forall|i: int|
                0 <= i < asked.len() ==> slice.columns[i] == column_name(#[trigger] asked[i])
            &&& forall|i: int|
                0 <= i < asked.len() && cube.dimension_names.contains(
                    column_name(#[trigger] asked[i]),
                ) ==> slice.axes.contains(column_name(asked[i]))
            &&& forall|i: int|
                0 <= i < asked.len() && is_measure(catalog, cube, column_name(#[trigger] asked[i]))
                    ==> slice.measures.contains(
                    measure_named(catalog, cube, column_name(asked[i]))->0,
                )
        }),
{
    sorted_columns_come_as_asked(catalog, cube, other, query.columns);
}

proof fn sorted_columns_come_as_asked<N: Number>(
    catalog: CatalogModel<N>,
    cube: CubeModel<N>,
    other: Option<CubeModel<N>>,
    asked: Seq<Seq<char>>,
)
    requires
        columns_sorted_out(catalog, cube, other, asked) is Ok,
    ensures
        ({
            let columns = columns_sorted_out(catalog, cube, other, asked)->Ok_0;
            &&& columns.headers.len() == asked.len()
            &&& forall|i: int|
                0 <= i < asked.len() ==> columns.headers[i] == column_name(#[trigger] asked[i])
            &&& forall|i: int|
                0 <= i < asked.len() && cube.dimension_names.contains(
                    column_name(#[trigger] asked[i]),
                ) ==> columns.axes.contains(column_name(asked[i]))
            &&& forall|i: int|
                0 <= i < asked.len() && is_measure(catalog, cube, column_name(#[trigger] asked[i]))
                    ==> columns.measures.contains(
                    measure_named(catalog, cube, column_name(asked[i]))->0,
                )
        }),
    decreases asked.len(),
{
    if asked.len() > 0 {
        let rest = asked.drop_last();
        sorted_columns_come_as_asked(catalog, cube, other, rest);
        let before = columns_sorted_out(catalog, cube, other, rest)->Ok_0;
        let after = columns_sorted_out(catalog, cube, other, asked)->Ok_0;
        place_of_is_first(cube.dimension_names, column_name(asked.last()));
        assert forall|name: Seq<char>| before.axes.contains(name) implies after.axes.contains(
            name,
        ) by {
            let k = choose|k: int| 0 <= k < before.axes.len() && before.axes[k] == name;
            assert(after.axes[k] == name);
        }
        assert forall|i: int| 0 <= i < asked.len() && cube.dimension_names.contains(
            column_name(#[trigger] asked[i]),
        ) implies after.axes.contains(column_name(asked[i])) by {
            if i < rest.len() {
                assert(rest[i] == asked[i]);
            } else {
                let name = column_name(asked.last());
                if !before.axes.contains(name) {
                    assert(after.axes[before.axes.len() as int] == name);
                }
            }
        }
        assert forall|i: int| 0 <= i < asked.len() && is_measure(
            catalog,
            cube,
            column_name(#[trigger] asked[i]),
        ) implies after.measures.contains(
            measure_named(catalog, cube, column_name(asked[i]))->0,
        ) by {
            let measure = measure_named(catalog, cube, column_name(asked[i]))->0;
            if i < rest.len() {
                assert(rest[i] == asked[i]);
                let k = choose|k: int|
                    0 <= k < before.measures.len() && before.measures[k] == measure;
                assert(after.measures[k] == measure);
            } else {
                assert(after.measures[before.measures.len() as int] == measure);
            }
        }
        assert forall|i: int| 0 <= i < asked.len() implies after.headers[i] == column_name(
            #[trigger] asked[i],
        ) by {
            if i < rest.len() {
                assert(rest[i] == asked[i]);
            }
        }
    }
}

// ---------------------------------------------------------------------------
// What is refused
// ---------------------------------------------------------------------------

/// A condition that leaves values out is refused, alone or with others, and so is one of
/// any other kind.
pub proof fn other_conditions_are_refused(
    filters: Seq<(Seq<char>, Seq<Seq<char>>)>,
    column: Seq<char>,
    values: Seq<Seq<char>>,
    condition: FilterModel,
)
    ensures
        ({
            let refused = FilterModel::OneOf(column, values, true);
            &&& where_added(filters, refused) is Err
            &&& where_added(filters, FilterModel::Other) is Err
            &&& where_added(
                filters,
                FilterModel::And(Box::new(condition), Box::new(refused)),
            ) is Err
            &&& where_added(
                filters,
                FilterModel::And(Box::new(refused), Box::new(condition)),
            ) is Err
        }),
{
    reveal_with_fuel(where_added, 3);
}

/// A query for a column that is unknown is refused: one that names neither a dimension of
/// the cube, nor a hierarchy of one, nor a measure, nor an attribute of the joined cube,
/// nor the value.
pub proof fn unknown_columns_are_refused<N: Number>(
    catalog: CatalogModel<N>,
    cube: CubeModel<N>,
    other: Option<CubeModel<N>>,
    query: QueryModel,
    i: int,
)
    requires
        0 <= i < query.columns.len(),
        !cube.dimension_names.contains(column_name(query.columns[i])),
        hierarchy_axis(catalog, cube, column_name(query.columns[i])) is None,
        measure_named(catalog, cube, column_name(query.columns[i])) is None,
        !has_attribute(catalog, other, column_name(query.columns[i])),
        column_name(query.columns[i]) != "value"@,
    ensures
        slice_asked(catalog, cube, other, query) is Err,
{
    unknown_column_is_refused(catalog, cube, other, query.columns, i);
}

proof fn unknown_column_is_refused<N: Number>(
    catalog: CatalogModel<N>,
    cube: CubeModel<N>,
    other: Option<CubeModel<N>>,
    asked: Seq<Seq<char>>,
    i: int,
)
    requires
        0 <= i < asked.len(),
        !cube.dimension_names.contains(column_name(asked[i])),
        hierarchy_axis(catalog, cube, column_name(asked[i])) is None,
        measure_named(catalog, cube, column_name(asked[i])) is None,
        !has_attribute(catalog, other, column_name(asked[i])),
        column_name(asked[i]) != "value"@,
    ensures
        columns_sorted_out(catalog, cube, other, asked) is Err,
    decreases asked.len(),
{
    if i < asked.len() - 1 {
        unknown_column_is_refused(catalog, cube, other, asked.drop_last(), i);
    } else {
        place_of_is_first(cube.dimension_names, column_name(asked[i]));
    }
}

/// The measures as rows and some of them as columns are not shown together.
pub proof fn measures_are_shown_one_way<N: Number>(
    catalog: CatalogModel<N>,
    cube: CubeModel<N>,
    other: Option<CubeModel<N>>,
    query: QueryModel,
    i: int,
    k: int,
)
    requires
        0 <= i < query.columns.len(),
        0 <= k < query.columns.len(),
        cube.measure_dimension == Some(column_name(query.columns[i])),
        cube.dimension_names.contains(column_name(query.columns[i])),
        is_measure(catalog, cube, column_name(query.columns[k])),
    ensures
        slice_asked(catalog, cube, other, query) is Err,
{
    if columns_sorted_out(catalog, cube, other, query.columns) is Ok {
        sorted_columns_come_as_asked(catalog, cube, other, query.columns);
        measure_axis_is_noted(catalog, cube, other, query.columns, i);
        assert(is_measure(catalog, cube, column_name(query.columns[k])));
    }
}

proof fn measure_axis_is_noted<N: Number>(
    catalog: CatalogModel<N>,
    cube: CubeModel<N>,
    other: Option<CubeModel<N>>,
    asked: Seq<Seq<char>>,
    i: int,
)
    requires
        0 <= i < asked.len(),
        cube.measure_dimension == Some(column_name(asked[i])),
        cube.dimension_names.contains(column_name(asked[i])),
        columns_sorted_out(catalog, cube, other, asked) is Ok,
    ensures
        columns_sorted_out(catalog, cube, other, asked)->Ok_0.measure_axis,
    decreases asked.len(),
{
    place_of_is_first(cube.dimension_names, column_name(asked[i]));
    if i < asked.len() - 1 {
        measure_axis_is_noted(catalog, cube, other, asked.drop_last(), i);
    }
}

/// A column that names a hierarchy shows the dimension that has it, in the order of that
/// hierarchy.
pub proof fn a_hierarchy_column_is_an_axis<N: Number>(
    catalog: CatalogModel<N>,
    cube: CubeModel<N>,
    other: Option<CubeModel<N>>,
    before: ColumnsModel,
    column: Seq<char>,
    place: int,
)
    requires
        0 <= place < cube.dimension_names.len(),
        cube.dimension_names.no_duplicates(),
        !cube.dimension_names.contains(column_name(column)),
        catalog.reference_named(column_name(column)) matches Some((owner, Some(_))) && owner
            == cube.dimension_names[place],
        cube.measure_dimension != Some(cube.dimension_names[place]),
    ensures
        ({
            let name = column_name(column);
            let owner = cube.dimension_names[place];
            let after = column_added(catalog, cube, other, before, column)->Ok_0;
            &&& column_added(catalog, cube, other, before, column) is Ok
            &&& after.headers == before.headers.push(name)
            &&& after.axes.contains(owner)
            &&& lookup(after.axis_hierarchies, owner) == (catalog.reference_named(name)->0).1
            &&& lookup(after.column_dims, name) == Some(place as usize)
            &&& after.measures == before.measures
        }),
{
    let name = column_name(column);
    let owner = cube.dimension_names[place];
    let hierarchy = (catalog.reference_named(name)->0).1->0;
    place_of_is_first(cube.dimension_names, name);
    place_of_is_first(cube.dimension_names, owner);
    assert(cube.dimension_names.contains(owner));
    assert(place_of(cube.dimension_names, owner) == Some(place));
    lookup_after_put(before.axis_hierarchies, owner, hierarchy, owner);
    lookup_after_put(before.column_dims, name, place as usize, name);
    if !before.axes.contains(owner) {
        assert(before.axes.push(owner)[before.axes.len() as int] == owner);
    }
}

} // verus!
