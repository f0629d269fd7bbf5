//! What a join shows.

use crate::cube::cube::CubeModel;
use crate::cube::node::CellModel;
use crate::cube::slice::{axis_places, ids_let_through, shown_places, ResultModel, SliceModel};
use crate::cube::slice_laws::place_of_group_is_first;
use crate::cube::splash_laws::exact_arithmetic;
use crate::dimension::dimension::DimensionModel;
use crate::engine::sql::{
    attribute_query, join_dimension, last_place_of, last_with_key, names_in_both, result_joined,
    row_enriched, JoinModel,
};
use crate::number::Number;
use crate::storage::name_map::keys;
use crate::storage::sparse_store::admits;
use crate::text::{place_but_case, place_but_case_finds, place_of, place_of_is_first, same_but_case};
use vstd::prelude::*;

verus! {

/// The first column of that name.
pub open spec fn is_column(headers: Seq<Seq<char>>, name: Seq<char>, column: int) -> bool {
    &&& 0 <= column < headers.len()
    &&& headers[column] == name
    &&& forall|c: int| 0 <= c < column ==> headers[c] != name
}

proof fn column_is_placed(headers: Seq<Seq<char>>, name: Seq<char>, column: int)
    requires
        is_column(headers, name, column),
    ensures
        place_of(headers, name) == Some(column),
{
    place_of_is_first(headers, name);
    assert(headers.contains(name));
    let i = place_of(headers, name)->0;
    if column < i {
        assert(headers[column] != name);
    }
}

/// The last row with that key.
pub open spec fn is_last_with_key(rows: Seq<Seq<Seq<char>>>, key: Seq<char>, k: int) -> bool {
    &&& 0 <= k < rows.len()
    &&& rows[k][0] == key
    &&& forall|later: int| k < later < rows.len() ==> (#[trigger] rows[later])[0] != key
}

proof fn last_row_is_found(rows: Seq<Seq<Seq<char>>>, key: Seq<char>)
    ensures
        match last_with_key(rows, key) {
            Some(k) => is_last_with_key(rows, key, k),
            None => forall|k: int| 0 <= k < rows.len() ==> (#[trigger] rows[k])[0] != key,
        },
    decreases rows.len(),
{
    if rows.len() > 0 {
        let rest = rows.drop_last();
        last_row_is_found(rest, key);
        assert forall|k: int| 0 <= k < rest.len() implies rest[k] == #[trigger] rows[k] by {}
        assert(rows[rows.len() - 1] == rows.last());
    }
}

proof fn last_name_is_found(names: Seq<Seq<char>>, name: Seq<char>)
    requires
        names.contains(name),
    ensures
        last_place_of(names, name) matches Some(k) && 0 <= k < names.len() && names[k] == name,
    decreases names.len(),
{
    if names.last() != name {
        let rest = names.drop_last();
        let k = choose|k: int| 0 <= k < names.len() && names[k] == name;
        assert(rest[k] == name);
        last_name_is_found(rest, name);
    }
}

/// A row with attributes in it: each in its column, and nothing else changed.
proof fn enriched_columns(
    headers: Seq<Seq<char>>,
    attributes: Seq<Seq<char>>,
    found: Option<Seq<Seq<char>>>,
    row: Seq<Seq<char>>,
    n: int,
    column: int,
)
    requires
        row.len() == headers.len(),
        0 <= n <= attributes.len(),
        0 <= column < headers.len(),
        forall|a: int| 0 <= a < attributes.len() ==> headers.contains(#[trigger] attributes[a]),
    ensures
        row_enriched(headers, attributes, found, row, n).len() == row.len(),
        is_column(headers, headers[column], column) && attributes.take(n).contains(headers[column])
            ==> row_enriched(headers, attributes, found, row, n)[column] == (match found {
            Some(other) => other[last_place_of(attributes, headers[column])->0 + 1],
            None => "-"@,
        }),
        !(is_column(headers, headers[column], column) && attributes.take(n).contains(
            headers[column],
        )) ==> row_enriched(headers, attributes, found, row, n)[column] == row[column],
    decreases n,
{
    if n > 0 {
        enriched_columns(headers, attributes, found, row, n - 1, column);
        let name = attributes[n - 1];
        let upto = attributes.take(n);
        let before = attributes.take(n - 1);
        assert(upto =~= before.push(name));
        assert(headers.contains(name));
        place_of_is_first(headers, name);
        let at = place_of(headers, name)->0;
        assert(upto[n - 1] == name);
        if before.contains(headers[column]) {
            let a = choose|a: int| 0 <= a < before.len() && before[a] == headers[column];
            assert(upto[a] == headers[column]);
        }
        if upto.contains(headers[column]) && headers[column] != name {
            let a = choose|a: int| 0 <= a < upto.len() && upto[a] == headers[column];
            assert(before[a] == headers[column]);
        }
        if is_column(headers, headers[column], column) && headers[column] == name {
            column_is_placed(headers, name, column);
        }
        if at == column {
            assert(is_column(headers, headers[column], column));
        }
    } else {
        assert(attributes.take(n) =~= Seq::<Seq<char>>::empty());
    }
}

/// A join shows in each row, under the name of an attribute, what the joined cube's
/// own slice shows under that name in its row for the same member; a dash where it
/// has no row for that member. It changes nothing else.
pub proof fn a_join_shows_what_the_joined_cube_shows<N: Number>(
    dims: Seq<DimensionModel<N>>,
    name: Seq<char>,
    join: JoinModel,
    other: CubeModel<N>,
    result: ResultModel,
    attributes: Seq<Seq<char>>,
    i: int,
    column: int,
    key_column: int,
)
    requires
        result_joined(dims, name, join, other, result, attributes).1 is Ok,
        forall|a: int|
            0 <= a < attributes.len() ==> result.headers.contains(#[trigger] attributes[a]),
        0 <= i < result.rows.len(),
        result.rows[i].len() == result.headers.len(),
        0 <= column < result.headers.len(),
        is_column(result.headers, join.dimension, key_column),
    ensures
        ({
            let (after, whole) = result_joined(dims, name, join, other, result, attributes);
            let shown = whole->Ok_0;
            let others = other.slice(after, attribute_query(join.dimension, attributes))->Ok_0;
            let key = result.rows[i][key_column];
            let attribute = result.headers[column];
            &&& shown.headers == result.headers
            &&& shown.rows.len() == result.rows.len()
            &&& shown.rows[i].len() == result.rows[i].len()
            &&& attributes.contains(attribute) && is_column(result.headers, attribute, column)
                ==> {
                &&& forall|k: int, j: int|
                    #![trigger others.rows[k], others.headers[j]]
                    is_last_with_key(others.rows, key, k) && 0 <= j < others.headers.len()
                        && others.headers[j] == attribute ==> shown.rows[i][column]
                        == others.rows[k][j]
                &&& (forall|k: int|
                    0 <= k < others.rows.len() ==> (#[trigger] others.rows[k])[0] != key)
                    ==> shown.rows[i][column] == "-"@
            }
            &&& !attributes.contains(attribute) ==> shown.rows[i][column]
                == result.rows[i][column]
        }),
{
    column_is_placed(result.headers, join.dimension, key_column);
    let (after, whole) = result_joined(dims, name, join, other, result, attributes);
    let query = attribute_query(join.dimension, attributes);
    let others = other.slice(after, query)->Ok_0;
    let key = result.rows[i][key_column];
    let attribute = result.headers[column];
    last_row_is_found(others.rows, key);
    let found = match last_with_key(others.rows, key) {
        Some(k) => Some(others.rows[k]),
        None => None,
    };
    let n = attributes.len() as int;
    assert(attributes.take(n) =~= attributes);
    enriched_columns(result.headers, attributes, found, result.rows[i], n, column);
    if attributes.contains(attribute) && is_column(result.headers, attribute, column) {
        last_name_is_found(attributes, attribute);
        let at = last_place_of(attributes, attribute)->0 + 1;
        assert(query.columns[at] == attribute);
        assert forall|k: int, j: int|
            #![trigger others.rows[k], others.headers[j]]
            is_last_with_key(others.rows, key, k) && 0 <= j < others.headers.len()
                && others.headers[j] == attribute implies whole->Ok_0.rows[i][column]
            == others.rows[k][j] by {
            match last_with_key(others.rows, key) {
                Some(found_at) => {
                    if found_at < k {
                        assert(others.rows[k][0] != key);
                    }
                    if k < found_at {
                        assert(others.rows[found_at][0] != key);
                    }
                },
                None => {},
            }
            assert(others.headers == query.columns);
            assert(others.rows[k][at] == others.rows[k][j]);
        }
    }
}

// ---------------------------------------------------------------------------
// Attributes
// ---------------------------------------------------------------------------

impl<N: Number> CubeModel<N> {
    /// Without filters every dimension lets all through.
    proof fn no_filters(self, dims: Seq<DimensionModel<N>>, query: SliceModel, n: int)
        requires
            query.filters.len() == 0,
            0 <= n,
        ensures
            self.slice_filters(dims, query, n) == Ok::<Seq<Option<Map<u32, N>>>, Seq<char>>(
                all_through(n),
            ),
        decreases n,
    {
        if n > 0 {
            self.no_filters(dims, query, n - 1);
            place_of_is_first(keys(query.filters), self.dimension_names[n - 1]);
            assert(all_through::<N>(n) =~= all_through::<N>(n - 1).push(None));
        } else {
            assert(all_through::<N>(n) =~= Seq::<Option<Map<u32, N>>>::empty());
        }
    }

    /// Every group comes of a cell.
    proof fn groups_come_of_cells(
        self,
        dims: Seq<DimensionModel<N>>,
        query: SliceModel,
        filters: Seq<Option<Map<u32, N>>>,
        cells: Seq<(Seq<u32>, CellModel<N>)>,
        g: int,
    )
        requires
            0 <= g < self.grouped(dims, query, filters, cells).len(),
        ensures
            exists|i: int|
                0 <= i < cells.len() && self.row_key(query, (#[trigger] cells[i]).0)
                    == self.grouped(dims, query, filters, cells)[g].key,
        decreases cells.len(),
    {
        if cells.len() > 0 {
            let rest = cells.drop_last();
            let last = cells.len() - 1;
            let before = self.grouped(dims, query, filters, rest);
            let after = self.grouped(dims, query, filters, cells);
            let key = self.row_key(query, cells[last].0);
            place_of_group_is_first(before, key);
            if after[g].key != key {
                self.groups_come_of_cells(dims, query, filters, rest, g);
                let i = choose|i: int|
                    0 <= i < rest.len() && self.row_key(query, (#[trigger] rest[i]).0)
                        == before[g].key;
                assert(cells[i] == rest[i]);
            } else {
                assert(self.row_key(query, cells[last].0) == after[g].key);
            }
        }
    }

    /// A cube of attributes: one dimension, and one of the attributes.
    pub open spec fn is_of_attributes(self, dimension: Seq<char>, p: int, m: int) -> bool {
        &&& !self.is_aggregating
        &&& self.dimension_names.len() == 2
        &&& self.dimensions.len() == 2
        &&& self.dimension_names[0] != self.dimension_names[1]
        &&& 0 <= p < 2
        &&& m == 1 - p
        &&& self.dimension_names[p] == dimension
        &&& self.measure_place() == Some(m)
    }

    /// The rows of a cube of attributes go by its other dimension.
    proof fn attribute_rows(
        self,
        dimension: Seq<char>,
        attributes: Seq<Seq<char>>,
        p: int,
        m: int,
    )
        requires
            self.is_of_attributes(dimension, p, m),
            attributes.len() > 0,
        ensures
            self.pivot(attribute_query(dimension, attributes)) == Some(m),
            self.shown_axes(attribute_query(dimension, attributes)) == seq![p as usize],
    {
        let query = attribute_query(dimension, attributes);
        reveal_with_fuel(axis_places, 3);
        reveal_with_fuel(shown_places, 3);
        assert(query.axes[0] == dimension);
        assert(query.axes.contains(dimension));
        assert(!query.axes.contains(self.dimension_names[m])) by {
            if query.axes.contains(self.dimension_names[m]) {
                let k = choose|k: int|
                    0 <= k < query.axes.len() && query.axes[k] == self.dimension_names[m];
                assert(query.axes[k] == dimension);
            }
        }
        let axes = self.axes(query);
        assert(axes =~= seq![p as usize]);
        assert(axes.drop_last() =~= Seq::<usize>::empty());
        assert(shown_places(axes.drop_last(), Some(m)) =~= Seq::<usize>::empty());
        assert(self.shown_axes(query) =~= seq![p as usize]);
    }
}

/// No filter for any of `n` dimensions.
pub open spec fn all_through<N>(n: int) -> Seq<Option<Map<u32, N>>> {
    Seq::new(n as nat, |i: int| None)
}

impl<N: Number> CubeModel<N> {
    /// The column of an attribute shows no dimension.
    proof fn attributes_are_no_axes(
        self,
        dimension: Seq<char>,
        attributes: Seq<Seq<char>>,
        p: int,
        m: int,
        key: Seq<u32>,
        attribute: Seq<char>,
    )
        requires
            self.is_of_attributes(dimension, p, m),
            attributes.len() > 0,
            attribute != dimension,
        ensures
            self.slot_of(attribute_query(dimension, attributes), key, attribute) is None,
    {
        let query = attribute_query(dimension, attributes);
        self.attribute_rows(dimension, attributes, p, m);
        reveal_with_fuel(CubeModel::slot_named, 3);
        place_of_is_first(keys(query.column_dims), attribute);
        assert(self.shown_axes(query)[0] == p);
    }

    /// The cell at the path is the only one for its member and its attribute, and its
    /// member the only one of that name.
    pub open spec fn is_alone(
        self,
        dims: Seq<DimensionModel<N>>,
        query: SliceModel,
        path: Seq<u32>,
        p: int,
    ) -> bool {
        &&& self.cells.contains_key(path)
        &&& path.len() == 2
        &&& forall|another: Seq<u32>| #[trigger]
            self.cells.contains_key(another) && another.len() == 2 ==> {
                &&& self.dim(dims, p).name_of(another[p]) == self.dim(dims, p).name_of(path[p])
                    ==> another[p] == path[p]
                &&& another[p] == path[p] && self.measure_name(dims, query, another)
                    == self.measure_name(dims, query, path) ==> another == path
            }
    }

    /// A cell of a cube of attributes is shown in a row of the slice by its member.
    proof fn an_attribute_is_shown(
        self,
        dims: Seq<DimensionModel<N>>,
        dimension: Seq<char>,
        attributes: Seq<Seq<char>>,
        path: Seq<u32>,
        p: int,
        m: int,
        a: int,
    )
        requires
            exact_arithmetic::<N>(),
            self.is_of_attributes(dimension, p, m),
            self.can_list(all_through(2)),
            self.is_alone(dims, attribute_query(dimension, attributes), path, p),
            0 <= a < attributes.len(),
            attributes[a] != dimension,
            self.measure_name(dims, attribute_query(dimension, attributes), path) == (
            match place_but_case(attributes, attributes[a]) {
                Some(k) => attributes[k],
                None => attributes[a],
            }),
        ensures
            ({
                let query = attribute_query(dimension, attributes);
                let groups = self.grouped(
                    dims,
                    query,
                    all_through(2),
                    self.let_through(all_through(2)),
                );
                let rows = self.sliced(dims, query, all_through(2)).rows;
                exists|r: int, g: int|
                    0 <= r < rows.len() && 0 <= g < groups.len() && (#[trigger] groups[g]).key
                        == seq![path[p]] && #[trigger] rows[r] == self.row(
                        dims,
                        query,
                        groups[g],
                    ) && rows[r][a + 1] == self.cells[path].shown()
            }),
    {
        let query = attribute_query(dimension, attributes);
        let filters = all_through::<N>(2);
        let allowed = ids_let_through(filters);
        let name = self.measure_name(dims, query, path);
        self.attribute_rows(dimension, attributes, p, m);
        let key = self.row_key(query, path);
        assert(key =~= seq![path[p]]);
        self.attributes_are_no_axes(dimension, attributes, p, m, key, attributes[a]);
        assert(query.columns[a + 1] == attributes[a]);
        assert(query.measures.contains(attributes[a]));
        assert(admits(allowed, path));
        assert forall|another: Seq<u32>| #[trigger]
            self.cells.contains_key(another) && admits(allowed, another) && self.belongs(
                dims,
                query,
                another,
                key,
                name,
            ) implies another == path by {
            assert(self.row_key(query, another) =~= seq![another[p]]);
            assert(seq![another[p]][0] == seq![path[p]][0]);
        }
        self.a_stored_cell_is_shown(dims, query, filters, path, a + 1);
    }

    /// Rows for one member are one row.
    proof fn one_row_for_a_member(
        self,
        dims: Seq<DimensionModel<N>>,
        dimension: Seq<char>,
        attributes: Seq<Seq<char>>,
        path: Seq<u32>,
        p: int,
        m: int,
        g: int,
        k: int,
    )
        requires
            self.is_of_attributes(dimension, p, m),
            self.can_list(all_through(2)),
            attributes.len() > 0,
            self.is_alone(dims, attribute_query(dimension, attributes), path, p),
            ({
                let query = attribute_query(dimension, attributes);
                let groups = self.grouped(
                    dims,
                    query,
                    all_through(2),
                    self.let_through(all_through(2)),
                );
                let rows = self.sliced(dims, query, all_through(2)).rows;
                &&& 0 <= g < groups.len()
                &&& groups[g].key == seq![path[p]]
                &&& 0 <= k < rows.len()
                &&& rows[k][0] == self.dim(dims, p).name_of(path[p])
            }),
        ensures
            ({
                let query = attribute_query(dimension, attributes);
                let groups = self.grouped(
                    dims,
                    query,
                    all_through(2),
                    self.let_through(all_through(2)),
                );
                self.sliced(dims, query, all_through(2)).rows[k] == self.row(
                    dims,
                    query,
                    groups[g],
                )
            }),
    {
        let query = attribute_query(dimension, attributes);
        let filters = all_through::<N>(2);
        let cells = self.let_through(filters);
        let groups = self.grouped(dims, query, filters, cells);
        let rows = self.sliced(dims, query, filters).rows;
        self.attribute_rows(dimension, attributes, p, m);
        self.each_group_is_a_row(dims, query, filters);
        let h = choose|h: int|
            0 <= h < groups.len() && rows[k] == self.row(dims, query, #[trigger] groups[h]);
        self.groups_come_of_cells(dims, query, filters, cells, h);
        let e = choose|e: int|
            0 <= e < cells.len() && self.row_key(query, (#[trigger] cells[e]).0) == groups[h].key;
        let another = cells[e].0;
        let wanted = |path: Seq<u32>| admits(ids_let_through(filters), path);
        assert(wanted(another) && self.cells.contains_key(another));
        self.a_column_shows_its_dimension(dims, query, groups[h], another, 0);
        assert(query.columns[0] == dimension);
        assert(self.shown_axes(query)[0] == p);
        assert(rows[k][0] == self.dim(dims, p).name_of(another[p]));
        assert(another[p] == path[p]);
        assert(groups[h].key =~= seq![another[p]]);
        self.one_group_for_each_key(dims, query, filters, cells);
        if g < h {
            assert(groups[g].key != groups[h].key);
        }
        if h < g {
            assert(groups[h].key != groups[g].key);
        }
    }
}

/// A join shows the cell that the joined cube has for the member and the attribute, as
/// it is stored.
///
/// The joined cube is one of attributes; no other cell of it is for that member and
/// attribute, and no other of its members has that name.
pub proof fn a_join_shows_the_stored_attribute<N: Number>(
    dims: Seq<DimensionModel<N>>,
    name: Seq<char>,
    join: JoinModel,
    other: CubeModel<N>,
    result: ResultModel,
    attributes: Seq<Seq<char>>,
    i: int,
    column: int,
    key_column: int,
    path: Seq<u32>,
    p: int,
    m: int,
)
    requires
        exact_arithmetic::<N>(),
        result_joined(dims, name, join, other, result, attributes).1 is Ok,
        forall|a: int|
            0 <= a < attributes.len() ==> result.headers.contains(#[trigger] attributes[a]),
        0 <= i < result.rows.len(),
        result.rows[i].len() == result.headers.len(),
        is_column(result.headers, join.dimension, key_column),
        attributes.contains(result.headers[column]),
        is_column(result.headers, result.headers[column], column),
        result.headers[column] != join.dimension,
        other.is_of_attributes(join.dimension, p, m),
        other.can_list(all_through(2)),
        ({
            let after = result_joined(dims, name, join, other, result, attributes).0;
            let query = attribute_query(join.dimension, attributes);
            &&& other.is_alone(after, query, path, p)
            &&& other.dim(after, p).name_of(path[p]) == result.rows[i][key_column]
            &&& other.measure_name(after, query, path) == (match place_but_case(
                attributes,
                result.headers[column],
            ) {
                Some(k) => attributes[k],
                None => result.headers[column],
            })
        }),
    ensures
        result_joined(dims, name, join, other, result, attributes).1->Ok_0.rows[i][column]
            == other.cells[path].shown(),
{
    let (after, whole) = result_joined(dims, name, join, other, result, attributes);
    let query = attribute_query(join.dimension, attributes);
    let attribute = result.headers[column];
    let key_text = result.rows[i][key_column];
    column_is_placed(result.headers, join.dimension, key_column);
    let filters = all_through::<N>(2);
    other.no_filters(after, query, 2);
    let others = other.slice(after, query)->Ok_0;
    let rows = others.rows;
    assert(rows == other.sliced(after, query, filters).rows);
    let a = choose|a: int| 0 <= a < attributes.len() && attributes[a] == attribute;
    other.an_attribute_is_shown(after, join.dimension, attributes, path, p, m, a);
    let groups = other.grouped(after, query, filters, other.let_through(filters));
    let (r, g) = choose|r: int, g: int|
        0 <= r < rows.len() && 0 <= g < groups.len() && (#[trigger] groups[g]).key
            == seq![path[p]] && #[trigger] rows[r] == other.row(after, query, groups[g])
            && rows[r][a + 1] == other.cells[path].shown();
    other.attribute_rows(join.dimension, attributes, p, m);
    assert(other.row_key(query, path) =~= seq![path[p]]);
    other.a_column_shows_its_dimension(after, query, groups[g], path, 0);
    assert(query.columns[0] == join.dimension);
    assert(other.shown_axes(query)[0] == p);
    assert(rows[r][0] == key_text);
    last_row_is_found(rows, key_text);
    let k = last_with_key(rows, key_text)->0;
    other.one_row_for_a_member(after, join.dimension, attributes, path, p, m, g, k);
    assert(others.headers[a + 1] == attribute);
    a_join_shows_what_the_joined_cube_shows(
        dims,
        name,
        join,
        other,
        result,
        attributes,
        i,
        column,
        key_column,
    );
    assert(others.rows[k][a + 1] == other.cells[path].shown());
}

// ---------------------------------------------------------------------------
// What a join goes by
// ---------------------------------------------------------------------------

proof fn names_in_both_are_shared(names: Seq<Seq<char>>, others: Seq<Seq<char>>)
    ensures
        forall|name: Seq<char>| #[trigger]
            names_in_both(names, others).contains(name) == (names.contains(name) && others.contains(
                name,
            )),
    decreases names.len(),
{
    let both = names_in_both(names, others);
    if names.len() > 0 {
        let rest = names.drop_last();
        let before = names_in_both(rest, others);
        names_in_both_are_shared(rest, others);
        assert forall|name: Seq<char>| #[trigger] both.contains(name) == (names.contains(name)
            && others.contains(name)) by {
            if both.contains(name) {
                let k = choose|k: int| 0 <= k < both.len() && both[k] == name;
                if k < before.len() {
                    assert(before[k] == name);
                    assert(before.contains(name));
                    let i = choose|i: int| 0 <= i < rest.len() && rest[i] == name;
                    assert(names[i] == name);
                } else {
                    assert(names[names.len() - 1] == name);
                }
            }
            if names.contains(name) && others.contains(name) {
                let i = choose|i: int| 0 <= i < names.len() && names[i] == name;
                if i < rest.len() {
                    assert(rest[i] == name);
                    assert(before.contains(name));
                    let k = choose|k: int| 0 <= k < before.len() && before[k] == name;
                    assert(both[k] == name);
                } else {
                    assert(both[both.len() - 1] == name);
                }
            }
        }
    }
}

/// Names of which no two are the same are shared without any two the same.
proof fn shared_names_differ(names: Seq<Seq<char>>, others: Seq<Seq<char>>)
    requires
        names.no_duplicates(),
    ensures
        names_in_both(names, others).no_duplicates(),
    decreases names.len(),
{
    if names.len() > 0 {
        let rest = names.drop_last();
        let before = names_in_both(rest, others);
        let both = names_in_both(names, others);
        shared_names_differ(rest, others);
        names_in_both_are_shared(rest, others);
        assert forall|i: int, j: int|
            0 <= i < both.len() && 0 <= j < both.len() && i != j implies both[i] != both[j] by {
            if i < before.len() && j < before.len() {
                assert(before[i] != before[j]);
            } else if i < before.len() {
                assert(before.contains(before[i]));
                assert(rest.contains(before[i]));
            } else {
                assert(before.contains(before[j]));
                assert(rest.contains(before[j]));
            }
        }
    }
}

/// Without being told, a join goes by the one dimension that both cubes have, and fails
/// where there are none or several. With one, it goes by that, in any case, if both have
/// it.
pub proof fn joins_go_by_what_both_have<N: Number>(
    name: Seq<char>,
    cube: CubeModel<N>,
    other_name: Seq<char>,
    other: CubeModel<N>,
    dimension: Seq<char>,
    using: Seq<char>,
)
    requires
        cube.dimension_names.no_duplicates(),
    ensures
        (join_dimension(name, cube, other_name, other, None) == Ok::<Seq<char>, Seq<char>>(
            dimension,
        )) == (cube.dimension_names.contains(dimension) && other.dimension_names.contains(
            dimension,
        ) && forall|d: Seq<char>|
            #![trigger cube.dimension_names.contains(d)]
            cube.dimension_names.contains(d) && other.dimension_names.contains(d) ==> d
                == dimension),
        ({
            let told = join_dimension(name, cube, other_name, other, Some(seq![using]));
            &&& told matches Ok(d) ==> cube.dimension_names.contains(d) && same_but_case(d, using)
            &&& told is Ok == ((exists|i: int|
                0 <= i < cube.dimension_names.len() && same_but_case(
                    #[trigger] cube.dimension_names[i],
                    using,
                )) && (exists|i: int|
                0 <= i < other.dimension_names.len() && same_but_case(
                    #[trigger] other.dimension_names[i],
                    using,
                )))
        }),
{
    let shared = names_in_both(cube.dimension_names, other.dimension_names);
    names_in_both_are_shared(cube.dimension_names, other.dimension_names);
    shared_names_differ(cube.dimension_names, other.dimension_names);
    place_but_case_finds(cube.dimension_names, using);
    place_but_case_finds(other.dimension_names, using);
    if shared.len() == 1 {
        assert(shared.contains(shared[0]));
        assert forall|d: Seq<char>|
            #![trigger cube.dimension_names.contains(d)]
            cube.dimension_names.contains(d) && other.dimension_names.contains(d) implies d
            == shared[0] by {
            assert(shared.contains(d));
        }
    } else if shared.len() > 1 {
        assert(shared[0] != shared[1]);
        assert(shared.contains(shared[0]) && shared.contains(shared[1]));
        assert(cube.dimension_names.contains(shared[0]));
        assert(cube.dimension_names.contains(shared[1]));
    } else {
        assert(!shared.contains(dimension));
    }
}

} // verus!
