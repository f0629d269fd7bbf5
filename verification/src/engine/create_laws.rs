//! What statements make, and how results are written.

use crate::catalog::catalog::{dim_made, dim_names, dims_made, CatalogModel};
use crate::catalog::laws::{in_place_over, made_in_place};
use crate::cube::cube::CubeModel;
use crate::cube::node::CellModel;
use crate::cube::slice::ResultModel;
use crate::dimension::dimension::DimensionModel;
use crate::engine::sql::{
    attribute_statement, dimension_words, hierarchy_and_dimension, measure_column, result_text, sql_executed, table_created, table_text,
};
use crate::engine::syntax::{first_statement, inserting, StatementModel};
use crate::number::Number;
use crate::shell::batch::{ends_in_return, lines_are_read_back, lines_of};
use crate::storage::name_map::lookup_after_put;
use crate::text::{
    byte_len, chars_in_bytes, found_from, is_ascii_text, joined, large, lowercase, occurs_at,
    place_of, place_of_is_first, repeated, trimmed, uppercase, width, without_end,
};
use crate::text_laws::{is_tight, the_first_place_is_found, trimming_takes_white_space_away};
use vstd::prelude::*;

verus! {

/// The dimension of the measures is the column of that type, the last where there are
/// several.
pub proof fn measures_are_the_last_such_column(columns: Seq<(Seq<char>, Seq<char>)>)
    ensures
        match measure_column(columns) {
            Some(name) => exists|i: int|
                0 <= i < columns.len() && (#[trigger] columns[i]).0 == name && uppercase(
                    columns[i].1,
                ) == "MEASURE"@ && forall|j: int|
                    i < j < columns.len() ==> uppercase((#[trigger] columns[j]).1) != "MEASURE"@,
            None => forall|i: int|
                0 <= i < columns.len() ==> uppercase((#[trigger] columns[i]).1) != "MEASURE"@,
        },
    decreases columns.len(),
{
    if columns.len() > 0 {
        let rest = columns.drop_last();
        let last = columns.len() - 1;
        if uppercase(columns[last].1) == "MEASURE"@ {
            assert(columns[last].0 == columns.last().0);
        } else {
            measures_are_the_last_such_column(rest);
            match measure_column(rest) {
                Some(name) => {
                    let i = choose|i: int|
                        0 <= i < rest.len() && (#[trigger] rest[i]).0 == name && uppercase(
                            rest[i].1,
                        ) == "MEASURE"@ && forall|j: int|
                            i < j < rest.len() ==> uppercase((#[trigger] rest[j]).1)
                                != "MEASURE"@;
                    assert(columns[i] == rest[i]);
                    assert forall|j: int| i < j < columns.len() implies uppercase(
                        (#[trigger] columns[j]).1,
                    ) != "MEASURE"@ by {
                        if j < last {
                            assert(rest[j] == columns[j]);
                        }
                    }
                },
                None => {
                    assert forall|i: int| 0 <= i < columns.len() implies uppercase(
                        (#[trigger] columns[i]).1,
                    ) != "MEASURE"@ by {
                        if i < last {
                            assert(rest[i] == columns[i]);
                        }
                    }
                },
            }
        }
    }
}

/// A table that is created is a cube without cells, with a dimension for each column in
/// their order, that sums up or does not as was said. The dimensions and the other cubes
/// that were there stay as they are.
pub proof fn a_table_is_a_cube_of_its_columns<N: Number>(
    catalog: CatalogModel<N>,
    name: Seq<char>,
    columns: Seq<(Seq<char>, Seq<char>)>,
    is_aggregating: bool,
)
    requires
        catalog.cube(name) is None,
        catalog.in_place(),
        catalog.dims.len() + columns.len() <= usize::MAX,
    ensures
        table_created(catalog, name, columns, is_aggregating).1 is Ok,
        ({
            let after = table_created(catalog, name, columns, is_aggregating).0;
            let cube = after.cube(name)->0;
            &&& after.cube(name) is Some
            &&& cube.name == name
            &&& cube.cells == Map::<Seq<u32>, CellModel<N>>::empty()
            &&& cube.is_aggregating == is_aggregating
            &&& cube.dimension_names.len() == columns.len()
            &&& forall|i: int|
                0 <= i < columns.len() ==> #[trigger] cube.dimension_names[i] == columns[i].0
            &&& cube.measure_dimension == measure_column(columns)
            &&& in_place_over(cube, after.dims)
            &&& catalog.dims.len() <= after.dims.len()
            &&& forall|d: int|
                0 <= d < catalog.dims.len() ==> #[trigger] after.dims[d] == catalog.dims[d]
            &&& forall|other: Seq<char>|
                lowercase(other) != lowercase(name) ==> #[trigger] after.cube(other)
                    == catalog.cube(other)
        }),
{
    let names = Seq::new(columns.len(), |i: int| columns[i].0);
    let after = table_created(catalog, name, columns, is_aggregating).0;
    let (dims, places) = dims_made(catalog.dims, names);
    let made = CubeModel::fresh(
        name,
        names,
        places,
        measure_column(columns),
        is_aggregating,
    );
    lookup_after_put(catalog.cubes, lowercase(name), made, lowercase(name));
    made_in_place(catalog.dims, names);
    assert forall|other: Seq<char>|
        lowercase(other) != lowercase(name) implies #[trigger] after.cube(other) == catalog.cube(
        other,
    ) by {
        lookup_after_put(catalog.cubes, lowercase(name), made, lowercase(other));
    }
}

/// A cube of attributes does not sum up; a table does.
pub proof fn attributes_are_not_summed_up<N: Number>(
    catalog: CatalogModel<N>,
    sql: Seq<char>,
    name: Seq<char>,
    columns: Seq<(Seq<char>, Seq<char>)>,
)
    ensures
        ({
            let upper = uppercase(trimmed(sql));
            let own = occurs_at(upper, "CREATE DIMENSION"@, 0) || occurs_at(
                upper,
                "CREATE HIERARCHY"@,
                0,
            );
            let attributes = occurs_at(upper, "CREATE ATTRIBUTE TABLE"@, 0);
            let statement = Ok::<Option<StatementModel>, Seq<char>>(
                Some(StatementModel::CreateTable(name, columns)),
            );
            &&& !own && attributes && first_statement(
                inserting(attribute_statement(trimmed(sql))),
            ) == statement ==> sql_executed(catalog, sql) == table_created(
                catalog,
                name,
                columns,
                false,
            )
            &&& !own && !attributes && first_statement(inserting(trimmed(sql))) == statement
                ==> sql_executed(catalog, sql) == table_created(catalog, name, columns, true)
        }),
{
}

// ---------------------------------------------------------------------------
// Results in writing
// ---------------------------------------------------------------------------

/// A result of rows is written in lines: the headers, a rule, and the rows in their
/// order, if nothing in it holds a line end or ends in a carriage return. One value alone
/// is written as it is.
pub proof fn a_result_is_written_line_by_line(result: ResultModel)
    requires
        result.rows.len() > 0,
        !joined(result.headers, " | "@).contains('\n'),
        !ends_in_return(joined(result.headers, " | "@)),
        !repeated("----------"@, result.headers.len()).contains('\n'),
        !ends_in_return(repeated("----------"@, result.headers.len())),
        forall|i: int|
            0 <= i < result.rows.len() ==> !joined(#[trigger] result.rows[i], " | "@).contains(
                '\n',
            ) && !ends_in_return(joined(result.rows[i], " | "@)),
    ensures
        ({
            let written = lines_of(table_text(result));
            &&& written.len() == result.rows.len() + 2
            &&& written[0] == joined(result.headers, " | "@)
            &&& forall|i: int|
                0 <= i < result.rows.len() ==> written[i + 2] == joined(
                    #[trigger] result.rows[i],
                    " | "@,
                )
        }),
        result.headers == seq!["value"@] && result.rows.len() == 1 && result.rows[0].len() == 1
            ==> result_text(result) == result.rows[0][0],
        !(result.headers == seq!["value"@] && result.rows.len() == 1 && result.rows[0].len() == 1)
            ==> result_text(result) == table_text(result),
{
    let head = seq![
        joined(result.headers, " | "@),
        repeated("----------"@, result.headers.len()),
    ];
    let rest = Seq::new(result.rows.len(), |i: int| joined(result.rows[i], " | "@));
    let parts = head + rest;
    assert forall|i: int| 0 <= i < parts.len() implies !(#[trigger] parts[i]).contains('\n')
        && !ends_in_return(parts[i]) by {
        if i >= 2 {
            assert(parts[i] == joined(result.rows[i - 2], " | "@));
        }
    }
    lines_are_read_back(parts);
    assert forall|i: int| 0 <= i < result.rows.len() implies parts[i + 2] == joined(
        #[trigger] result.rows[i],
        " | "@,
    ) by {}
}

// ---------------------------------------------------------------------------
// Statements of its own
// ---------------------------------------------------------------------------

proof fn ascii_takes_one_byte(c: char)
    requires
        c <= '\u{7f}',
    ensures
        width(c) == 1,
{
}

/// In ASCII a character is a byte.
proof fn bytes_are_characters(text: Seq<char>, n: int)
    requires
        is_ascii_text(text),
        0 <= n <= text.len(),
    ensures
        chars_in_bytes(text, n) == Some(n),
        byte_len(text) == text.len(),
    decreases text.len(),
{
    if text.len() > 0 {
        assert(text[0] <= '\u{7f}' && text[text.len() - 1] <= '\u{7f}');
        let (rest, most) = (text.drop_first(), text.drop_last());
        assert forall|i: int| 0 <= i < rest.len() implies (#[trigger] rest[i]) <= '\u{7f}' by {
            assert(rest[i] == text[i + 1]);
        }
        assert forall|i: int| 0 <= i < most.len() implies (#[trigger] most[i]) <= '\u{7f}' by {
            assert(most[i] == text[i]);
        }
        ascii_takes_one_byte(text[0]);
        ascii_takes_one_byte(text.last());
        if n > 0 {
            bytes_are_characters(rest, n - 1);
            assert(chars_in_bytes(text, n) == Some(n));
        }
        bytes_are_characters(most, 0);
    }
}

proof fn ascii_parts(a: Seq<char>, b: Seq<char>)
    requires
        is_ascii_text(a),
        is_ascii_text(b),
    ensures
        is_ascii_text(a + b),
{
    assert forall|i: int| 0 <= i < (a + b).len() implies (#[trigger] (a + b)[i]) <= '\u{7f}' by {
        if i < a.len() {
            assert((a + b)[i] == a[i]);
        } else {
            assert((a + b)[i] == b[i - a.len()]);
        }
    }
}

/// A dimension is created under the name that the statement gives, with or without a
/// semicolon behind it; what was there stays, and one of that name is not made twice.
pub proof fn a_dimension_is_created_under_its_name<N: Number>(
    catalog: CatalogModel<N>,
    name: Seq<char>,
)
    requires
        is_ascii_text(name),
        is_tight(name),
        name.len() > 0,
        name.last() != ';',
    ensures
        ({
            let (after, outcome) = sql_executed(catalog, "CREATE DIMENSION "@ + name);
            &&& outcome is Ok
            &&& sql_executed(catalog, "CREATE DIMENSION "@ + name.push(';')).0 == after
            &&& after.cubes == catalog.cubes
            &&& dim_names(after.dims).contains(name)
            &&& dim_names(catalog.dims).contains(name) ==> after.dims == catalog.dims
            &&& !dim_names(catalog.dims).contains(name) ==> after.dims == catalog.dims.push(
                DimensionModel::fresh(name),
            )
        }),
{
    let more = name.push(';');
    assert forall|i: int| 0 <= i < more.len() implies (#[trigger] more[i]) <= '\u{7f}' by {
        if i < name.len() {
            assert(more[i] == name[i]);
        }
    }
    a_dimension_is_read(name);
    a_dimension_is_read(more);
    assert(more.drop_last() =~= name);
    assert(without_end(more, ';') == name);
    assert(without_end(name, ';') == name);
    place_of_is_first(dim_names(catalog.dims), name);
    let after = dim_made(catalog.dims, name).0;
    if place_of(dim_names(catalog.dims), name) is None {
        assert(dim_names(after)[catalog.dims.len() as int] == name);
    }
}

proof fn a_dimension_is_read(name: Seq<char>)
    requires
        is_ascii_text(name),
        is_tight(name),
        name.len() > 0,
    ensures
        ({
            let sql = "CREATE DIMENSION "@ + name;
            &&& occurs_at(uppercase(trimmed(sql)), "CREATE DIMENSION"@, 0)
            &&& dimension_words(sql) == without_end(name, ';')
        }),
{
    reveal_strlit("CREATE DIMENSION ");
    reveal_strlit("CREATE DIMENSION");
    let start = "CREATE DIMENSION "@;
    let sql = start + name;
    let none = Seq::<char>::empty();
    assert(is_ascii_text(start));
    ascii_parts(start, name);
    bytes_are_characters(sql, 16);
    assert(sql.last() == name.last() && sql[0] == 'C');
    trimming_takes_white_space_away(none, sql, none);
    let rest = sql.skip(16);
    assert(rest =~= seq![' '] + name + none);
    trimming_takes_white_space_away(seq![' '], name, none);
    let upper = uppercase(sql);
    assert(upper.subrange(0, 16) =~= "CREATE DIMENSION"@);
}

/// A hierarchy and its dimension are told apart by the word between them.
pub proof fn a_hierarchy_is_told_from_its_dimension(hierarchy: Seq<char>, dimension: Seq<char>)
    requires
        is_ascii_text(hierarchy),
        is_ascii_text(dimension),
        is_tight(hierarchy),
        is_tight(dimension),
        !hierarchy.contains(' '),
    ensures
        hierarchy_and_dimension(hierarchy + " IN "@ + dimension) == Some((hierarchy, dimension)),
        hierarchy_and_dimension(hierarchy + " in "@ + dimension) == Some((hierarchy, dimension)),
{
    the_word_is_found(hierarchy, " IN "@, dimension);
    the_word_is_found(hierarchy, " in "@, dimension);
}

/// A text in front of which no blank stands is where the word is first found.
proof fn the_word_is_found_first(text: Seq<char>, n: int)
    requires
        is_ascii_text(text),
        0 <= n,
        occurs_at(uppercase(text), " IN "@, n),
        forall|i: int| 0 <= i < n ==> #[trigger] text[i] != ' ',
    ensures
        found_from(uppercase(text), " IN "@, 0) == Some(n),
{
    reveal_strlit(" IN ");
    let upper = uppercase(text);
    the_first_place_is_found(upper, " IN "@, 0);
    let found = found_from(upper, " IN "@, 0);
    assert(found is Some);
    let i = found->0;
    if i < n {
        assert(upper.subrange(i, i + 4)[0] == " IN "@[0]);
        assert(upper[i] == large(text[i]));
        assert(text[i] != ' ');
    } else if n < i {
        assert(!occurs_at(upper, " IN "@, n));
    }
}

proof fn the_word_is_found(hierarchy: Seq<char>, between: Seq<char>, dimension: Seq<char>)
    requires
        is_ascii_text(hierarchy),
        is_ascii_text(dimension),
        is_tight(hierarchy),
        is_tight(dimension),
        !hierarchy.contains(' '),
        between == " IN "@ || between == " in "@,
    ensures
        hierarchy_and_dimension(hierarchy + between + dimension) == Some((hierarchy, dimension)),
{
    let text = hierarchy + between + dimension;
    let n = hierarchy.len() as int;
    let none = Seq::<char>::empty();
    let upper = uppercase(text);
    assert(between.len() == 4 && is_ascii_text(between)) by {
        reveal_strlit(" IN ");
        reveal_strlit(" in ");
    }
    ascii_parts(hierarchy, between);
    ascii_parts(hierarchy + between, dimension);
    assert(occurs_at(upper, " IN "@, n)) by {
        reveal_strlit(" IN ");
        reveal_strlit(" in ");
        assert(text[n] == between[0] && text[n + 1] == between[1] && text[n + 2] == between[2]
            && text[n + 3] == between[3]);
        assert(upper.subrange(n, n + 4) =~= " IN "@);
    }
    assert forall|i: int| 0 <= i < n implies #[trigger] text[i] != ' ' by {
        assert(text[i] == hierarchy[i]);
        assert(hierarchy.contains(hierarchy[i]));
    }
    the_word_is_found_first(text, n);
    let before = upper.take(n);
    assert forall|i: int| 0 <= i < before.len() implies (#[trigger] before[i]) <= '\u{7f}' by {
        assert(before[i] == large(text[i]));
        assert(text[i] <= '\u{7f}');
    }
    bytes_are_characters(before, 0);
    bytes_are_characters(text, n);
    bytes_are_characters(text, n + 4);
    assert(text.take(n) =~= hierarchy);
    assert(text.skip(n + 4) =~= dimension);
    trimming_takes_white_space_away(none, hierarchy, none);
    trimming_takes_white_space_away(none, dimension, none);
}

} // verus!
