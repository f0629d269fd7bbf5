//! The commands of the shell: statements of SQL, and lines that start with a
//! dot. A command that needs a file says so, and is finished with what the file
//! holds.

use crate::catalog::catalog::{uncached, Catalog, CatalogModel};
use crate::cube::cube::{dims_of, split, split_qualified, Cube, CubeModel, SplashMode};
use crate::dimension::dimension::{capped, Dimension, DimensionModel};
use crate::engine::sql::{sql_executed, sql_ready, try_execute_sql};
use crate::number::Number;
use crate::shell::words::{tokenize, words_of};
use crate::storage::sparse_store::store_text;
use crate::text::{
    cat2, cat3, cat4, cat5, cat7, chars_of, debug_form, decimal, decimal_text, join, joined, lines,
    push_line, same, slices, texts, to_debug, word, words,
};
use vstd::prelude::*;

verus! {

/// What is left to do after a command was read.
pub enum Step {
    /// Nothing. False if the command has failed.
    Done(bool),
    /// Save the database.
    Save,
    /// Read a file and store its rows in a cube.
    Import { file: String, cube: String },
    /// Read a file and put its parents and children into a dimension.
    ImportPairs { file: String, dimension: String },
    /// Read a file and put its levels into a dimension.
    ImportLevels { file: String, dimension: String },
    /// Run a script.
    Run { file: String },
}

/// What is left to do, with text as characters.
pub enum StepModel {
    Done(bool),
    Save,
    Import { file: Seq<char>, cube: Seq<char> },
    ImportPairs { file: Seq<char>, dimension: Seq<char> },
    ImportLevels { file: Seq<char>, dimension: Seq<char> },
    Run { file: Seq<char> },
}

impl View for Step {
    type V = StepModel;

    open spec fn view(&self) -> StepModel {
        match self {
            Step::Done(ok) => StepModel::Done(*ok),
            Step::Save => StepModel::Save,
            Step::Import { file, cube } => StepModel::Import { file: file@, cube: cube@ },
            Step::ImportPairs { file, dimension } => StepModel::ImportPairs {
                file: file@,
                dimension: dimension@,
            },
            Step::ImportLevels { file, dimension } => StepModel::ImportLevels {
                file: file@,
                dimension: dimension@,
            },
            Step::Run { file } => StepModel::Run { file: file@ },
        }
    }
}

/// What a command does: the database after it, what it says, and what is left
/// to do.
#[verifier::ext_equal]
pub struct Effect<N> {
    pub catalog: CatalogModel<N>,
    pub said: Seq<char>,
    pub step: StepModel,
}

/// One line that is said.
pub open spec fn line(text: Seq<char>) -> Seq<char> {
    text + seq!['\n']
}

/// A command that says something and is done.
pub open spec fn says<N>(catalog: CatalogModel<N>, said: Seq<char>, ok: bool) -> Effect<N> {
    Effect { catalog, said, step: StepModel::Done(ok) }
}

/// A command that ends in news or in an error.
pub open spec fn says_outcome<N>(
    catalog: CatalogModel<N>,
    outcome: Result<Seq<char>, Seq<char>>,
) -> Effect<N> {
    match outcome {
        Ok(news) => says(catalog, line(news), true),
        Err(e) => says(catalog, line("Error: "@ + e), false),
    }
}

// ---------------------------------------------------------------------------
// Showing
// ---------------------------------------------------------------------------

pub open spec fn help_text() -> Seq<char> {
    line("Available Commands:"@)
        + line("  .cubes                       - List all cubes in the catalog"@)
        + line("  .dimensions                  - List all dimensions in the catalog"@)
        + line("  .import <file.csv> <cube>    - Import data from CSV"@)
        + line("  .rollup <dim> <p> <c> <wt>   - Create parent/child hierarchy relation"@)
        + line("  .detach <dim> <p> <c>        - Remove a parent/child hierarchy relation"@)
        + line("  .delete_member <dim> <member>- Delete a member and purge its data"@)
        + line("  .splash [ADD] <cube> <val> <m...> - Allocate a value to leaf descendants"@)
        + line("  .order <dim> [<m> front | <m> before <r>] - Set/show member display order"@)
        + line("  .run <script.sql>            - Run a batch script of commands"@)
        + line("  .save                        - Save database to disk"@)
        + line("  .exit / .quit                - Save database and exit"@)
}

fn say_help(out: &mut String)
    ensures
        final(out)@ == old(out)@ + help_text(),
{
    push_line(out, "Available Commands:");
    push_line(out, "  .cubes                       - List all cubes in the catalog");
    push_line(out, "  .dimensions                  - List all dimensions in the catalog");
    push_line(out, "  .import <file.csv> <cube>    - Import data from CSV");
    push_line(out, "  .rollup <dim> <p> <c> <wt>   - Create parent/child hierarchy relation");
    push_line(out, "  .detach <dim> <p> <c>        - Remove a parent/child hierarchy relation");
    push_line(out, "  .delete_member <dim> <member>- Delete a member and purge its data");
    push_line(out, "  .splash [ADD] <cube> <val> <m...> - Allocate a value to leaf descendants");
    push_line(out, "  .order <dim> [<m> front | <m> before <r>] - Set/show member display order");
    push_line(out, "  .run <script.sql>            - Run a batch script of commands");
    push_line(out, "  .save                        - Save database to disk");
    push_line(out, "  .exit / .quit                - Save database and exit");
    assert(out@ =~= old(out)@ + help_text());
}

/// The dimension of the measures by name.
pub open spec fn measure_text<N>(cube: CubeModel<N>) -> Seq<char> {
    match cube.measure_dimension {
        Some(name) => name,
        None => "None"@,
    }
}

/// Names in a list, each as `Debug` writes it.
pub open spec fn debug_list(names: Seq<Seq<char>>) -> Seq<char> {
    "["@ + joined(Seq::new(names.len(), |i: int| debug_form(names[i])), ", "@) + "]"@
}

/// One cube in the list of cubes.
pub open spec fn cube_line<N>(cube: (Seq<char>, CubeModel<N>)) -> Seq<char> {
    "  - "@ + cube.0 + (if cube.1.is_aggregating {
        " [Transactional] (Dims: "@
    } else {
        " [Attribute] (Dims: "@
    }) + debug_list(cube.1.dimension_names) + ") [Measure Dim: "@ + measure_text(cube.1) + "]"@
}

pub open spec fn cubes_text<N>(cubes: Seq<(Seq<char>, CubeModel<N>)>) -> Seq<char> {
    line("Cubes in Catalog:"@) + lines(Seq::new(cubes.len(), |i: int| cube_line(cubes[i])))
}

fn debug_names(names: &Vec<String>) -> (r: String)
    ensures
        r@ == debug_list(texts(names@)),
{
    let ghost all = Seq::new(names@.len(), |i: int| debug_form(texts(names@)[i]));
    let mut parts: Vec<String> = Vec::new();
    let mut i: usize = 0;
    assert(texts(parts@) =~= all.take(0));
    while i < names.len()
        invariant
            i <= names@.len(),
            all == Seq::new(names@.len(), |i: int| debug_form(texts(names@)[i])),
            texts(parts@) == all.take(i as int),
        decreases names@.len() - i,
    {
        let ghost done = texts(parts@);
        parts.push(to_debug(names[i].as_str()));
        assert(texts(parts@) =~= done.push(all[i as int]));
        assert(texts(parts@) =~= all.take(i as int + 1));
        i += 1;
    }
    assert(all.take(i as int) =~= all);
    cat3("[", join(&parts, ", ").as_str(), "]")
}

fn measure_name<N: Number>(cube: &Cube<N>) -> (r: String)
    ensures
        r@ == measure_text(cube@),
{
    match &cube.measure_dimension {
        Some(name) => name.clone(),
        None => "None".to_string(),
    }
}

fn say_cubes<N: Number>(catalog: &Catalog<N>, out: &mut String)
    ensures
        final(out)@ == old(out)@ + cubes_text(catalog@.cubes),
{
    push_line(out, "Cubes in Catalog:");
    let ghost start = out@;
    let ghost all = Seq::new(catalog@.cubes.len(), |i: int| cube_line(catalog@.cubes[i]));
    let mut i: usize = 0;
    assert(start + lines(all.take(0)) =~= start);
    while i < catalog.cubes.len()
        invariant
            i <= catalog.cubes@.len(),
            all == Seq::new(catalog@.cubes.len(), |i: int| cube_line(catalog@.cubes[i])),
            out@ == start + lines(all.take(i as int)),
        decreases catalog.cubes@.len() - i,
    {
        let cube = &catalog.cubes[i].1;
        let kind = if cube.is_aggregating {
            " [Transactional] (Dims: "
        } else {
            " [Attribute] (Dims: "
        };
        let text = cat7(
            "  - ",
            catalog.cubes[i].0.as_str(),
            kind,
            debug_names(&cube.dimension_names).as_str(),
            ") [Measure Dim: ",
            measure_name(cube).as_str(),
            "]",
        );
        push_line(out, text.as_str());
        assert(catalog@.cubes[i as int] == (catalog.cubes@[i as int].0@, cube@));
        assert(text@ == all[i as int]);
        assert(all.take(i as int + 1).drop_last() =~= all.take(i as int));
        assert(out@ =~= start + lines(all.take(i as int + 1)));
        i += 1;
    }
    assert(all.take(i as int) =~= all);
    assert(out@ =~= old(out)@ + cubes_text(catalog@.cubes));
}

/// One dimension in the dump of a cube.
pub open spec fn slot_line<N: Number>(
    dims: Seq<DimensionModel<N>>,
    cube: CubeModel<N>,
    i: int,
) -> Seq<char> {
    let dim = cube.dim(dims, i);
    "  ["@ + decimal(i as nat) + "] "@ + dim.name + " (Size: "@ + decimal(
        capped(dim.size()) as nat,
    ) + (if cube.measure_dimension == Some(cube.dimension_names[i]) {
        ") [MEASURE]"@
    } else {
        ") "@
    })
}

/// The head of the dump of a cube.
pub open spec fn cube_head<N: Number>(cube: CubeModel<N>) -> Seq<char> {
    line("======================================"@) + line("Cube '"@ + cube.name + "' State Dump"@)
        + line("======================================"@) + line(
        if cube.is_aggregating {
            "Type: Transactional (Aggregates)"@
        } else {
            "Type: Attribute (No Math)"@
        },
    ) + line("Measure Dimension: "@ + measure_text(cube)) + line(
        "Dimensions ("@ + decimal(cube.dimension_names.len()) + "):"@,
    )
}

/// The dump of a cube.
pub open spec fn cube_text<N: Number>(dims: Seq<DimensionModel<N>>, cube: CubeModel<N>) -> Seq<
    char,
> {
    cube_head(cube) + lines(
        Seq::new(cube.dimension_names.len(), |i: int| slot_line(dims, cube, i)),
    ) + line("Raw Trie Data:"@) + store_text(cube.cells) + line(
        "======================================"@,
    )
}

fn say_cube_head<N: Number>(cube: &Cube<N>, out: &mut String)
    ensures
        final(out)@ == old(out)@ + cube_head(cube@),
{
    push_line(out, "======================================");
    push_line(out, cat3("Cube '", cube.name.as_str(), "' State Dump").as_str());
    push_line(out, "======================================");
    let kind = if cube.is_aggregating {
        "Type: Transactional (Aggregates)"
    } else {
        "Type: Attribute (No Math)"
    };
    push_line(out, kind);
    push_line(out, cat2("Measure Dimension: ", measure_name(cube).as_str()).as_str());
    push_line(
        out,
        cat3(
            "Dimensions (",
            decimal_text(cube.dimension_names.len() as u128).as_str(),
            "):",
        ).as_str(),
    );
    assert(out@ =~= old(out)@ + cube_head(cube@));
}

fn say_slots<N: Number>(dims: &Vec<Dimension<N>>, cube: &Cube<N>, out: &mut String)
    requires
        cube@.fits(dims@.len()),
    ensures
        final(out)@ == old(out)@ + lines(
            Seq::new(
                cube@.dimension_names.len(),
                |i: int| slot_line(dims_of(dims@), cube@, i),
            ),
        ),
{
    let ghost start = out@;
    let ghost models = dims_of(dims@);
    let ghost all = Seq::new(cube@.dimension_names.len(), |i: int| slot_line(models, cube@, i));
    let mut i: usize = 0;
    assert(start + lines(all.take(0)) =~= start);
    while i < cube.dimension_names.len()
        invariant
            i <= cube.dimension_names@.len(),
            cube@.fits(dims@.len()),
            models == dims_of(dims@),
            all == Seq::new(
                cube@.dimension_names.len(),
                |i: int| slot_line(models, cube@, i),
            ),
            out@ == start + lines(all.take(i as int)),
        decreases cube.dimension_names@.len() - i,
    {
        let slot = cube.dimensions[i];
        assert(slot < dims@.len());
        assert(cube@.dimension_names[i as int] == cube.dimension_names@[i as int]@);
        let is_measure = match &cube.measure_dimension {
            Some(name) => same(name.as_str(), cube.dimension_names[i].as_str()),
            None => false,
        };
        let end = if is_measure {
            ") [MEASURE]"
        } else {
            ") "
        };
        let text = cat7(
            "  [",
            decimal_text(i as u128).as_str(),
            "] ",
            dims[slot].name.as_str(),
            " (Size: ",
            decimal_text(dims[slot].len() as u128).as_str(),
            end,
        );
        push_line(out, text.as_str());
        assert(text@ == all[i as int]);
        assert(all.take(i as int + 1).drop_last() =~= all.take(i as int));
        assert(out@ =~= start + lines(all.take(i as int + 1)));
        i += 1;
    }
    assert(all.take(i as int) =~= all);
}

fn say_cube<N: Number>(dims: &Vec<Dimension<N>>, cube: &Cube<N>, out: &mut String)
    requires
        cube@.fits(dims@.len()),
    ensures
        final(out)@ == old(out)@ + cube_text(dims_of(dims@), cube@),
{
    say_cube_head(cube, out);
    say_slots(dims, cube, out);
    push_line(out, "Raw Trie Data:");
    cube.store.print_tree(out);
    push_line(out, "======================================");
    assert(out@ =~= old(out)@ + cube_text(dims_of(dims@), cube@));
}

/// One dimension in the list of dimensions.
pub open spec fn dimension_line<N: Number>(dim: DimensionModel<N>) -> Seq<char> {
    "  - "@ + dim.name + " ("@ + decimal(capped(dim.size()) as nat) + " members)"@
}

pub open spec fn dimensions_text<N: Number>(dims: Seq<DimensionModel<N>>) -> Seq<char> {
    line("Dimensions in Catalog:"@) + lines(
        Seq::new(dims.len(), |i: int| dimension_line(dims[i])),
    )
}

fn say_dimensions<N: Number>(dims: &Vec<Dimension<N>>, out: &mut String)
    ensures
        final(out)@ == old(out)@ + dimensions_text(dims_of(dims@)),
{
    push_line(out, "Dimensions in Catalog:");
    let ghost start = out@;
    let ghost models = dims_of(dims@);
    let ghost all = Seq::new(models.len(), |i: int| dimension_line(models[i]));
    let mut i: usize = 0;
    assert(start + lines(all.take(0)) =~= start);
    while i < dims.len()
        invariant
            i <= dims@.len(),
            models == dims_of(dims@),
            all == Seq::new(models.len(), |i: int| dimension_line(models[i])),
            out@ == start + lines(all.take(i as int)),
        decreases dims@.len() - i,
    {
        let text = cat5(
            "  - ",
            dims[i].name.as_str(),
            " (",
            decimal_text(dims[i].len() as u128).as_str(),
            " members)",
        );
        push_line(out, text.as_str());
        assert(text@ == all[i as int]);
        assert(all.take(i as int + 1).drop_last() =~= all.take(i as int));
        assert(out@ =~= start + lines(all.take(i as int + 1)));
        i += 1;
    }
    assert(all.take(i as int) =~= all);
    assert(out@ =~= old(out)@ + dimensions_text(models));
}

// ---------------------------------------------------------------------------
// Members
// ---------------------------------------------------------------------------

/// The database with one dimension changed.
pub open spec fn dim_set<N: Number>(catalog: CatalogModel<N>, i: int, dim: DimensionModel<N>) -> CatalogModel<
    N,
> {
    CatalogModel { dims: catalog.dims.update(i, dim), ..catalog }
}

/// The database without the answers that its cubes have kept.
pub open spec fn forgotten<N: Number>(catalog: CatalogModel<N>) -> CatalogModel<N> {
    CatalogModel { cubes: uncached(catalog.cubes), ..catalog }
}

/// `.rollup <dimension> <parent> <child> <weight>`: puts a child under a parent,
/// in the hierarchy of that name or else in the default one of the dimension.
pub open spec fn rolled_up<N: Number>(catalog: CatalogModel<N>, words: Seq<Seq<char>>) -> Effect<N> {
    if words.len() != 5 {
        says(
            catalog,
            line("Usage: .rollup <dimension> <parent> <child> <weight>"@) + line(
                "       (quote names that contain spaces)"@,
            ),
            false,
        )
    } else {
        match N::read_spec(words[4]) {
            None => says(
                catalog,
                line("Error: weight '"@ + words[4] + "' is not a number."@),
                false,
            ),
            Some(weight) => {
                let (made, i, hierarchy, _) = catalog.reference_resolved(words[1]);
                let (dim, outcome) = made.dims[i].component_added(
                    Some(hierarchy),
                    words[2],
                    words[3],
                    weight,
                );
                let after = forgotten(dim_set(made, i, dim));
                match outcome {
                    Ok(Some(former)) => says(
                        after,
                        line(
                            "Rollup added. '"@ + words[3] + "' moved from '"@ + former + "' to '"@
                                + words[2] + "' (one parent per hierarchy)."@,
                        ),
                        true,
                    ),
                    Ok(None) => says(after, line("Rollup added."@), true),
                    Err(e) => says(after, line("Error: "@ + e), false),
                }
            },
        }
    }
}

fn roll_up<N: Number>(catalog: &mut Catalog<N>, words: &Vec<String>, out: &mut String) -> (r: Step)
    requires
        old(catalog)@.valid(),
    ensures
        final(catalog)@.valid(),
        happened(
            rolled_up(old(catalog)@, texts(words@)),
            old(out)@,
            final(catalog)@,
            final(out)@,
            r@,
        ),
{
    let ghost start = out@;
    if words.len() != 5 {
        push_line(out, "Usage: .rollup <dimension> <parent> <child> <weight>");
        push_line(out, "       (quote names that contain spaces)");
        assert(out@ =~= start + rolled_up(old(catalog)@, texts(words@)).said);
        return Step::Done(false);
    }
    let ghost all = texts(words@);
    assert(all[1] == words@[1]@ && all[2] == words@[2]@ && all[3] == words@[3]@ && all[4]
        == words@[4]@);
    match N::read(words[4].as_str()) {
        None => {
            push_line(
                out,
                cat3("Error: weight '", words[4].as_str(), "' is not a number.").as_str(),
            );
            assert(out@ =~= start + rolled_up(old(catalog)@, all).said);
            Step::Done(false)
        },
        Some(weight) => {
            let (place, hier, _) = catalog.resolve_reference(words[1].as_str());
            let ghost made = catalog@;
            let linked = catalog.dimensions[place].add_component_in(
                Some(hier.as_str()),
                words[2].as_str(),
                words[3].as_str(),
                weight,
            );
            assert(catalog@.dims =~= made.dims.update(place as int, catalog@.dims[place as int]));
            catalog.clear_all_caches();
            let former = match linked {
                Ok(former) => former,
                Err(e) => {
                    push_line(out, cat2("Error: ", e.as_str()).as_str());
                    assert(out@ =~= start + rolled_up(old(catalog)@, all).said);
                    return Step::Done(false);
                },
            };
            match former {
                Some(name) => {
                    let head = cat5(
                        "Rollup added. '",
                        words[3].as_str(),
                        "' moved from '",
                        name.as_str(),
                        "' to '",
                    );
                    push_line(
                        out,
                        cat3(
                            head.as_str(),
                            words[2].as_str(),
                            "' (one parent per hierarchy).",
                        ).as_str(),
                    );
                },
                None => {
                    push_line(out, "Rollup added.");
                },
            }
            assert(out@ =~= start + rolled_up(old(catalog)@, all).said);
            Step::Done(true)
        },
    }
}

/// A command has had this effect.
pub open spec fn happened<N: Number>(
    effect: Effect<N>,
    out_before: Seq<char>,
    catalog: CatalogModel<N>,
    out: Seq<char>,
    step: StepModel,
) -> bool {
    catalog == effect.catalog && out == out_before + effect.said && step == effect.step
}

/// `.detach <dimension> <parent> <child>`: takes a child from under a parent, in
/// the hierarchy of that name or else in the default one of the dimension.
pub open spec fn detached<N: Number>(catalog: CatalogModel<N>, words: Seq<Seq<char>>) -> Effect<N> {
    if words.len() != 4 {
        says(catalog, line("Usage: .detach <dimension> <parent> <child>"@), false)
    } else {
        let (made, i, hierarchy, _) = catalog.reference_resolved(words[1]);
        match made.dims[i].component_removed(Some(hierarchy), words[2], words[3]) {
            (dim, Ok(())) => says(
                forgotten(dim_set(made, i, dim)),
                line("Detached '"@ + words[3] + "' from '"@ + words[2] + "'."@),
                true,
            ),
            (dim, Err(e)) => says(made, line("Error: "@ + e), false),
        }
    }
}

fn detach<N: Number>(catalog: &mut Catalog<N>, words: &Vec<String>, out: &mut String) -> (r: Step)
    requires
        old(catalog)@.valid(),
    ensures
        final(catalog)@.valid(),
        happened(
            detached(old(catalog)@, texts(words@)),
            old(out)@,
            final(catalog)@,
            final(out)@,
            r@,
        ),
{
    let ghost start = out@;
    let ghost all = texts(words@);
    if words.len() != 4 {
        push_line(out, "Usage: .detach <dimension> <parent> <child>");
        assert(out@ =~= start + detached(old(catalog)@, all).said);
        return Step::Done(false);
    }
    assert(all[1] == words@[1]@ && all[2] == words@[2]@ && all[3] == words@[3]@);
    let (place, hier, _) = catalog.resolve_reference(words[1].as_str());
    let ghost made = catalog@;
    let removed = catalog.dimensions[place].remove_component_in(
        Some(hier.as_str()),
        words[2].as_str(),
        words[3].as_str(),
    );
    assert(catalog@.dims =~= made.dims.update(place as int, catalog@.dims[place as int]));
    match removed {
        Ok(()) => {
            catalog.clear_all_caches();
            push_line(
                out,
                cat5("Detached '", words[3].as_str(), "' from '", words[2].as_str(), "'.").as_str(),
            );
            assert(out@ =~= start + detached(old(catalog)@, all).said);
            Step::Done(true)
        },
        Err(e) => {
            assert(catalog@.dims =~= made.dims);
            push_line(out, cat2("Error: ", e.as_str()).as_str());
            assert(out@ =~= start + detached(old(catalog)@, all).said);
            Step::Done(false)
        },
    }
}

/// `.delete_member <dimension> <member>`: deletes a member and its data.
pub open spec fn member_dropped<N: Number>(
    catalog: CatalogModel<N>,
    words: Seq<Seq<char>>,
) -> Effect<N> {
    if words.len() != 3 {
        says(catalog, line("Usage: .delete_member <dimension> <member>"@), false)
    } else {
        let (after, outcome) = catalog.member_deleted(words[1], words[2]);
        says_outcome(after, outcome)
    }
}

/// Says news or an error.
fn say_outcome(outcome: Result<String, String>, out: &mut String) -> (r: Step)
    ensures
        r@ == StepModel::Done(outcome is Ok),
        final(out)@ == old(out)@ + (match outcome {
            Ok(news) => line(news@),
            Err(e) => line("Error: "@ + e@),
        }),
{
    match outcome {
        Ok(news) => {
            push_line(out, news.as_str());
            assert(out@ =~= old(out)@ + line(news@));
            Step::Done(true)
        },
        Err(e) => {
            push_line(out, cat2("Error: ", e.as_str()).as_str());
            assert(out@ =~= old(out)@ + line("Error: "@ + e@));
            Step::Done(false)
        },
    }
}

fn drop_member<N: Number>(catalog: &mut Catalog<N>, words: &Vec<String>, out: &mut String) -> (r: Step)
    requires
        old(catalog)@.valid(),
    ensures
        final(catalog)@.valid(),
        happened(
            member_dropped(old(catalog)@, texts(words@)),
            old(out)@,
            final(catalog)@,
            final(out)@,
            r@,
        ),
{
    let ghost start = out@;
    let ghost all = texts(words@);
    if words.len() != 3 {
        push_line(out, "Usage: .delete_member <dimension> <member>");
        assert(out@ =~= start + member_dropped(old(catalog)@, all).said);
        return Step::Done(false);
    }
    assert(all[1] == words@[1]@ && all[2] == words@[2]@);
    let outcome = catalog.delete_member(words[1].as_str(), words[2].as_str());
    say_outcome(outcome, out)
}

// ---------------------------------------------------------------------------
// Spreading
// ---------------------------------------------------------------------------

/// The first `n` members of a cell: as given, or the default member for `*` and
/// for those that are left out.
pub open spec fn members_meant<N: Number>(
    dims: Seq<DimensionModel<N>>,
    cube: CubeModel<N>,
    given: Seq<Seq<char>>,
    n: int,
) -> Result<Seq<Seq<char>>, Seq<char>>
    decreases n,
{
    if n <= 0 {
        Ok(Seq::empty())
    } else {
        match members_meant(dims, cube, given, n - 1) {
            Err(e) => Err(e),
            Ok(before) => if n <= given.len() && given[n - 1] != "*"@ {
                Ok(before.push(given[n - 1]))
            } else {
                let dim = cube.dim(dims, n - 1);
                match dim.default_member_id {
                    Some(id) => Ok(before.push(dim.name_of(id))),
                    None => Err(
                        "Dimension '"@ + cube.dimension_names[n - 1]
                            + "' has no default member; specify a value explicitly."@,
                    ),
                }
            },
        }
    }
}

/// `.splash [ADD] <cube> <value> <m1> <m2> ...`: spreads a value over the leaves
/// below the members.
pub open spec fn splashed<N: Number>(catalog: CatalogModel<N>, words: Seq<Seq<char>>) -> Effect<N> {
    let adds = words.len() > 1 && words[1] == "ADD"@;
    let rest = if adds {
        words.skip(2)
    } else {
        words.skip(1)
    };
    if rest.len() < 3 {
        says(
            catalog,
            line("Usage: .splash [ADD] <cube> <value> <m1> [<m2> ...]"@) + line(
                "       Use '*' to select a dimension's default member."@,
            ),
            false,
        )
    } else {
        match (N::read_spec(rest[1]), catalog.cube_place(rest[0])) {
            (None, _) => says(catalog, line("Error: '"@ + rest[1] + "' is not a number."@), false),
            (_, None) => says(
                catalog,
                line("Splash failed: Cube '"@ + rest[0] + "' not found."@),
                false,
            ),
            (Some(value), Some(place)) => {
                let cube = catalog.cubes[place].1;
                match members_meant(
                    catalog.dims,
                    cube,
                    rest.skip(2),
                    cube.dimension_names.len() as int,
                ) {
                    Err(e) => says(catalog, line("Splash failed: "@ + e), false),
                    Ok(members) => splash_done(catalog, place, rest[0], members, value, adds),
                }
            },
        }
    }
}

/// A value spread over the leaves of a cube.
pub open spec fn splash_done<N: Number>(
    catalog: CatalogModel<N>,
    place: int,
    name: Seq<char>,
    members: Seq<Seq<char>>,
    value: N,
    adds: bool,
) -> Effect<N> {
    let mode = if adds {
        SplashMode::Add
    } else {
        SplashMode::Replace
    };
    let (cube, dims, outcome) = catalog.cubes[place].1.splashed(catalog.dims, members, value, mode);
    let after = CatalogModel {
        dims,
        cubes: catalog.cubes.update(place, (catalog.cubes[place].0, cube)),
    };
    match outcome {
        Ok(n) => says(
            after,
            line(
                (if adds {
                    "Added "@
                } else {
                    "Splashed "@
                }) + value.shown_spec() + " across "@ + decimal(n as nat) + " leaf cell(s) in '"@
                    + name + "'."@,
            ),
            true,
        ),
        Err(e) => says(after, line("Splash failed: "@ + e), false),
    }
}

proof fn members_stay_unknown<N: Number>(
    dims: Seq<DimensionModel<N>>,
    cube: CubeModel<N>,
    given: Seq<Seq<char>>,
    n: int,
    end: int,
)
    requires
        0 <= n <= end,
        members_meant(dims, cube, given, n) is Err,
    ensures
        members_meant(dims, cube, given, end) == members_meant(dims, cube, given, n),
    decreases end - n,
{
    if n < end {
        members_stay_unknown(dims, cube, given, n + 1, end);
    }
}

/// Finds out which members are meant by the words from `from` on.
fn find_members<N: Number>(
    dims: &Vec<Dimension<N>>,
    cube: &Cube<N>,
    words: &Vec<String>,
    from: usize,
) -> (r: Result<Vec<String>, String>)
    requires
        cube@.fits(dims@.len()),
        from <= words@.len(),
    ensures
        ({
            let meant = members_meant(
                dims_of(dims@),
                cube@,
                texts(words@).skip(from as int),
                cube@.dimension_names.len() as int,
            );
            match r {
                Ok(members) => meant == Ok::<Seq<Seq<char>>, Seq<char>>(texts(members@)),
                Err(e) => meant == Err::<Seq<Seq<char>>, Seq<char>>(e@),
            }
        }),
{
    let ghost models = dims_of(dims@);
    let ghost given = texts(words@).skip(from as int);
    let mut members: Vec<String> = Vec::new();
    let mut i: usize = 0;
    assert(texts(members@) =~= Seq::<Seq<char>>::empty());
    while i < cube.dimension_names.len()
        invariant
            i <= cube.dimension_names@.len(),
            from <= words@.len(),
            cube@.fits(dims@.len()),
            models == dims_of(dims@),
            given == texts(words@).skip(from as int),
            members_meant(models, cube@, given, i as int) == Ok::<Seq<Seq<char>>, Seq<char>>(
                texts(members@),
            ),
        decreases cube.dimension_names@.len() - i,
    {
        let ghost done = texts(members@);
        let said = i < words.len() - from;
        if said {
            assert(given[i as int] == words@[from + i]@);
        }
        if said && !same(words[from + i].as_str(), "*") {
            members.push(words[from + i].clone());
            assert(texts(members@) =~= done.push(given[i as int]));
        } else {
            let slot = cube.dimensions[i];
            assert(slot < dims@.len());
            match dims[slot].get_default_member_name() {
                Some(name) => {
                    let ghost text = name@;
                    members.push(name);
                    assert(texts(members@) =~= done.push(text));
                },
                None => {
                    assert(cube@.dimension_names[i as int] == cube.dimension_names@[i as int]@);
                    proof {
                        members_stay_unknown(
                            models,
                            cube@,
                            given,
                            i as int + 1,
                            cube@.dimension_names.len() as int,
                        );
                    }
                    return Err(
                        cat3(
                            "Dimension '",
                            cube.dimension_names[i].as_str(),
                            "' has no default member; specify a value explicitly.",
                        ),
                    );
                },
            }
        }
        i += 1;
    }
    Ok(members)
}

fn splash<N: Number>(catalog: &mut Catalog<N>, words: &Vec<String>, out: &mut String) -> (r: Step)
    requires
        old(catalog)@.valid(),
        words@.len() > 0,
    ensures
        final(catalog)@.valid(),
        happened(
            splashed(old(catalog)@, texts(words@)),
            old(out)@,
            final(catalog)@,
            final(out)@,
            r@,
        ),
{
    let ghost start = out@;
    let ghost all = texts(words@);
    let ghost was = catalog@;
    if words.len() > 1 {
        assert(all[1] == words@[1]@);
    }
    let adds = words.len() > 1 && same(words[1].as_str(), "ADD");
    let from: usize = if adds {
        2
    } else {
        1
    };
    let ghost rest = all.skip(from as int);
    if words.len() - from < 3 {
        push_line(out, "Usage: .splash [ADD] <cube> <value> <m1> [<m2> ...]");
        push_line(out, "       Use '*' to select a dimension's default member.");
        assert(out@ =~= start + splashed(was, all).said);
        return Step::Done(false);
    }
    let name = words[from].as_str();
    let amount = words[from + 1].as_str();
    assert(rest[0] == name@ && rest[1] == amount@);
    assert(rest.skip(2) =~= all.skip(from as int + 2));
    let value = match N::read(amount) {
        Some(value) => value,
        None => {
            push_line(out, cat3("Error: '", amount, "' is not a number.").as_str());
            assert(out@ =~= start + splashed(was, all).said);
            return Step::Done(false);
        },
    };
    let place = match catalog.find_cube(name) {
        Some(place) => place,
        None => {
            push_line(out, cat3("Splash failed: Cube '", name, "' not found.").as_str());
            assert(out@ =~= start + splashed(was, all).said);
            return Step::Done(false);
        },
    };
    assert(was.cubes[place as int].1.fits(was.dims.len()));
    let members = match find_members(
        &catalog.dimensions,
        &catalog.cubes[place].1,
        words,
        from + 2,
    ) {
        Ok(members) => members,
        Err(e) => {
            push_line(out, cat2("Splash failed: ", e.as_str()).as_str());
            assert(out@ =~= start + splashed(was, all).said);
            return Step::Done(false);
        },
    };
    let refs = slices(&members);
    let mode = if adds {
        SplashMode::Add
    } else {
        SplashMode::Replace
    };
    let outcome = catalog.cubes[place].1.write_splashed(
        &mut catalog.dimensions,
        refs.as_slice(),
        value,
        mode,
    );
    proof {
        assert(catalog@.cubes =~= was.cubes.update(
            place as int,
            (was.cubes[place as int].0, catalog@.cubes[place as int].1),
        ));
        assert forall|k: int| 0 <= k < catalog@.cubes.len() implies (
        #[trigger] catalog@.cubes[k]).1.fits(catalog@.dims.len()) by {
            assert(was.cubes[k].1.fits(was.dims.len()));
        }
    }
    match outcome {
        Ok(n) => {
            let verb = if adds {
                "Added "
            } else {
                "Splashed "
            };
            let text = cat7(
                verb,
                value.shown().as_str(),
                " across ",
                decimal_text(n as u128).as_str(),
                " leaf cell(s) in '",
                name,
                "'.",
            );
            push_line(out, text.as_str());
            assert(out@ =~= start + splashed(was, all).said);
            Step::Done(true)
        },
        Err(e) => {
            push_line(out, cat2("Splash failed: ", e.as_str()).as_str());
            assert(out@ =~= start + splashed(was, all).said);
            Step::Done(false)
        },
    }
}

// ---------------------------------------------------------------------------
// Order
// ---------------------------------------------------------------------------

/// The members in order, numbered from one.
pub open spec fn order_text(name: Seq<char>, members: Seq<Seq<char>>) -> Seq<char> {
    line("Display order for '"@ + name + "':"@) + lines(
        Seq::new(
            members.len(),
            |i: int| "  "@ + decimal((i + 1) as nat) + ". "@ + members[i],
        ),
    )
}

/// `.order <dimension> [<member> front | <member> before <ref>]`: shows the
/// order of the members, or changes it, in the hierarchy of that name or else in
/// the default one of the dimension.
pub open spec fn ordered<N: Number>(catalog: CatalogModel<N>, words: Seq<Seq<char>>) -> Effect<N> {
    let usage = says(
        catalog,
        line("Usage: .order <dimension> [<member> front | <member> before <ref>]"@),
        false,
    );
    if words.len() < 2 {
        usage
    } else {
        match catalog.reference_found(words[1]) {
            None => says(
                catalog,
                line("Error: Dimension '"@ + words[1] + "' not found."@),
                false,
            ),
            Some((i, hierarchy)) => {
                let dim = catalog.dims[i];
                if words.len() == 2 {
                    says(
                        dim_set(catalog, i, dim.ensured().ensured_in(Some(hierarchy))),
                        order_text(hierarchy, dim.ensured().shown_members(Some(hierarchy))),
                        true,
                    )
                } else if words.len() == 4 && words[3] == "front"@ {
                    match dim.moved_to_front(Some(hierarchy), words[2]) {
                        (after, Ok(())) => says(
                            forgotten(dim_set(catalog, i, after)),
                            line("Moved '"@ + words[2] + "' to front in '"@ + hierarchy + "'."@),
                            true,
                        ),
                        (after, Err(e)) => says(forgotten(catalog), line("Error: "@ + e), false),
                    }
                } else if words.len() == 5 && words[3] == "before"@ {
                    match dim.moved_before(Some(hierarchy), words[2], words[4]) {
                        (after, Ok(())) => says(
                            forgotten(dim_set(catalog, i, after)),
                            line(
                                "Moved '"@ + words[2] + "' before '"@ + words[4] + "' in '"@
                                    + hierarchy + "'."@,
                            ),
                            true,
                        ),
                        (after, Err(e)) => says(forgotten(catalog), line("Error: "@ + e), false),
                    }
                } else {
                    usage
                }
            },
        }
    }
}

fn say_order(name: &str, members: &Vec<String>, out: &mut String)
    ensures
        final(out)@ == old(out)@ + order_text(name@, texts(members@)),
{
    push_line(out, cat3("Display order for '", name, "':").as_str());
    let ghost start = out@;
    let ghost shown = texts(members@);
    let ghost all = Seq::new(
        shown.len(),
        |i: int| "  "@ + decimal((i + 1) as nat) + ". "@ + shown[i],
    );
    let mut i: usize = 0;
    assert(start + lines(all.take(0)) =~= start);
    while i < members.len()
        invariant
            i <= members@.len(),
            shown == texts(members@),
            all == Seq::new(
                shown.len(),
                |i: int| "  "@ + decimal((i + 1) as nat) + ". "@ + shown[i],
            ),
            out@ == start + lines(all.take(i as int)),
        decreases members@.len() - i,
    {
        let text = cat4(
            "  ",
            decimal_text(i as u128 + 1).as_str(),
            ". ",
            members[i].as_str(),
        );
        push_line(out, text.as_str());
        assert(text@ == all[i as int]);
        assert(all.take(i as int + 1).drop_last() =~= all.take(i as int));
        assert(out@ =~= start + lines(all.take(i as int + 1)));
        i += 1;
    }
    assert(all.take(i as int) =~= all);
    assert(out@ =~= old(out)@ + order_text(name@, shown));
}

fn order<N: Number>(catalog: &mut Catalog<N>, words: &Vec<String>, out: &mut String) -> (r: Step)
    requires
        old(catalog)@.valid(),
    ensures
        final(catalog)@.valid(),
        happened(
            ordered(old(catalog)@, texts(words@)),
            old(out)@,
            final(catalog)@,
            final(out)@,
            r@,
        ),
{
    let ghost start = out@;
    let ghost all = texts(words@);
    let ghost was = catalog@;
    let usage = "Usage: .order <dimension> [<member> front | <member> before <ref>]";
    if words.len() < 2 {
        push_line(out, usage);
        assert(out@ =~= start + ordered(was, all).said);
        return Step::Done(false);
    }
    assert forall|i: int| 0 <= i < words@.len() implies all[i] == #[trigger] words@[i]@ by {}
    let (place, name) = match catalog.find_reference(words[1].as_str()) {
        Some(found) => found,
        None => {
            push_line(
                out,
                cat3("Error: Dimension '", words[1].as_str(), "' not found.").as_str(),
            );
            assert(out@ =~= start + ordered(was, all).said);
            return Step::Done(false);
        },
    };
    let ghost dim = was.dims[place as int];
    if words.len() == 2 {
        catalog.dimensions[place].ensure_display_order();
        let members = catalog.dimensions[place].member_order_names_in(Some(name.as_str()));
        assert(catalog@.dims =~= was.dims.update(
            place as int,
            dim.ensured().ensured_in(Some(name@)),
        ));
        say_order(name.as_str(), &members, out);
        return Step::Done(true);
    }
    if words.len() == 4 && same(words[3].as_str(), "front") {
        let moved = catalog.dimensions[place].move_member_to_front_in(
            Some(name.as_str()),
            words[2].as_str(),
        );
        assert(catalog@.dims =~= was.dims.update(
            place as int,
            dim.moved_to_front(Some(name@), all[2]).0,
        ));
        catalog.clear_all_caches();
        return match moved {
            Ok(()) => {
                push_line(
                    out,
                    cat5(
                        "Moved '",
                        words[2].as_str(),
                        "' to front in '",
                        name.as_str(),
                        "'.",
                    ).as_str(),
                );
                assert(out@ =~= start + ordered(was, all).said);
                Step::Done(true)
            },
            Err(e) => {
                assert(catalog@.dims =~= was.dims);
                push_line(out, cat2("Error: ", e.as_str()).as_str());
                assert(out@ =~= start + ordered(was, all).said);
                Step::Done(false)
            },
        };
    }
    if words.len() == 5 && same(words[3].as_str(), "before") {
        let moved = catalog.dimensions[place].move_member_before_in(
            Some(name.as_str()),
            words[2].as_str(),
            words[4].as_str(),
        );
        assert(catalog@.dims =~= was.dims.update(
            place as int,
            dim.moved_before(Some(name@), all[2], all[4]).0,
        ));
        catalog.clear_all_caches();
        return match moved {
            Ok(()) => {
                push_line(
                    out,
                    cat7(
                        "Moved '",
                        words[2].as_str(),
                        "' before '",
                        words[4].as_str(),
                        "' in '",
                        name.as_str(),
                        "'.",
                    ).as_str(),
                );
                assert(out@ =~= start + ordered(was, all).said);
                Step::Done(true)
            },
            Err(e) => {
                assert(catalog@.dims =~= was.dims);
                push_line(out, cat2("Error: ", e.as_str()).as_str());
                assert(out@ =~= start + ordered(was, all).said);
                Step::Done(false)
            },
        };
    }
    push_line(out, usage);
    assert(out@ =~= start + ordered(was, all).said);
    Step::Done(false)
}

/// `.tree <dimension> <member>`: draws the tree below a member, in the hierarchy
/// of that name or else in the default one of the dimension, unless the member
/// names its hierarchy. None where there is no end to it.
pub open spec fn tree_drawn<N: Number>(catalog: CatalogModel<N>, words: Seq<Seq<char>>) -> Option<
    Effect<N>,
> {
    if words.len() != 3 {
        Some(
            says(
                catalog,
                line("Usage: .tree <dimension> <root_member>"@) + line(
                    "Example: .tree Geography Global"@,
                ),
                true,
            ),
        )
    } else {
        match catalog.reference_found(words[1]) {
            None => Some(
                says(catalog, line("Error: Dimension '"@ + words[1] + "' not found."@), false),
            ),
            Some((i, meant)) => {
                let (named, member) = split(words[2]);
                let hierarchy = if named is Some {
                    named
                } else {
                    Some(meant)
                };
                if catalog.dims[i].is_tree(hierarchy, member) {
                    Some(
                        says(
                            catalog,
                            line("Hierarchy for '"@ + words[2] + "' in "@ + words[1] + ":"@)
                                + catalog.dims[i].drawn(hierarchy, member, N::one_spec()),
                            true,
                        ),
                    )
                } else {
                    None
                }
            },
        }
    }
}

fn draw_tree<N: Number>(catalog: &Catalog<N>, words: &Vec<String>, out: &mut String) -> (r: Option<
    Step,
>)
    ensures
        match r {
            Some(step) => tree_drawn(catalog@, texts(words@)) is Some && happened(
                tree_drawn(catalog@, texts(words@))->0,
                old(out)@,
                catalog@,
                final(out)@,
                step@,
            ),
            None => tree_drawn(catalog@, texts(words@)) is None && final(out)@ == old(out)@,
        },
{
    let ghost start = out@;
    let ghost all = texts(words@);
    if words.len() != 3 {
        push_line(out, "Usage: .tree <dimension> <root_member>");
        push_line(out, "Example: .tree Geography Global");
        assert(out@ =~= start + tree_drawn(catalog@, all)->0.said);
        return Some(Step::Done(true));
    }
    assert(all[1] == words@[1]@ && all[2] == words@[2]@);
    let (place, meant) = match catalog.find_reference(words[1].as_str()) {
        Some(found) => found,
        None => {
            push_line(
                out,
                cat3("Error: Dimension '", words[1].as_str(), "' not found.").as_str(),
            );
            assert(out@ =~= start + tree_drawn(catalog@, all)->0.said);
            return Some(Step::Done(false));
        },
    };
    let (named, member) = split_qualified(words[2].as_str());
    let hier = match named {
        Some(named) => Some(named),
        None => Some(meant),
    };
    if !catalog.dimensions[place].is_tree_below(word(&hier), member.as_str()) {
        return None;
    }
    push_line(
        out,
        cat5("Hierarchy for '", words[2].as_str(), "' in ", words[1].as_str(), ":").as_str(),
    );
    catalog.dimensions[place].print_tree_in(word(&hier), member.as_str(), 0, N::one(), out);
    assert(out@ =~= start + tree_drawn(catalog@, all)->0.said);
    Some(Step::Done(true))
}

// ---------------------------------------------------------------------------
// Commands
// ---------------------------------------------------------------------------

/// `.cube <name>`: shows all of a cube.
pub open spec fn cube_shown<N: Number>(catalog: CatalogModel<N>, words: Seq<Seq<char>>) -> Effect<N> {
    if words.len() != 2 {
        says(catalog, line("Usage: .cube <name>"@), false)
    } else {
        match catalog.cube_place(words[1]) {
            Some(place) => says(
                catalog,
                cube_text(catalog.dims, catalog.cubes[place].1),
                true,
            ),
            None => says(catalog, line("Error: Cube '"@ + words[1] + "' not found."@), false),
        }
    }
}

/// A command that needs a file and something to put it into.
pub open spec fn file_asked<N: Number>(
    catalog: CatalogModel<N>,
    words: Seq<Seq<char>>,
    usage: Seq<char>,
    step: StepModel,
) -> Effect<N> {
    if words.len() != 3 {
        says(catalog, line(usage), false)
    } else {
        Effect { catalog, said: Seq::empty(), step }
    }
}

/// `.import <file> <cube>`: stores the rows of a file in a cube.
pub open spec fn import_asked<N: Number>(
    catalog: CatalogModel<N>,
    words: Seq<Seq<char>>,
) -> Effect<N> {
    if words.len() == 3 && catalog.cube(words[2]) is None {
        says(catalog, line("Cube not found."@), false)
    } else {
        file_asked(
            catalog,
            words,
            "Usage: .import <filepath> <cube>"@,
            StepModel::Import { file: words[1], cube: words[2] },
        )
    }
}

/// What a line that starts with a dot does. None where it cannot be done.
pub open spec fn meta_effect<N: Number>(catalog: CatalogModel<N>, words: Seq<Seq<char>>) -> Option<
    Effect<N>,
> {
    let name = if words.len() > 0 {
        words[0]
    } else {
        Seq::empty()
    };
    if name == ".help"@ {
        Some(says(catalog, help_text(), true))
    } else if name == ".save"@ {
        Some(Effect { catalog, said: line("Database saved."@), step: StepModel::Save })
    } else if name == ".cubes"@ {
        Some(says(catalog, cubes_text(catalog.cubes), true))
    } else if name == ".cube"@ {
        Some(cube_shown(catalog, words))
    } else if name == ".import"@ {
        Some(import_asked(catalog, words))
    } else if name == ".import_pc"@ {
        Some(
            file_asked(
                catalog,
                words,
                "Usage: .import_pc <file.csv> <dimension>"@,
                StepModel::ImportPairs { file: words[1], dimension: words[2] },
            ),
        )
    } else if name == ".import_lvl"@ {
        Some(
            file_asked(
                catalog,
                words,
                "Usage: .import_lvl <file.csv> <dimension>"@,
                StepModel::ImportLevels { file: words[1], dimension: words[2] },
            ),
        )
    } else if name == ".rollup"@ {
        Some(rolled_up(catalog, words))
    } else if name == ".detach"@ {
        Some(detached(catalog, words))
    } else if name == ".delete_member"@ || name == ".drop_member"@ {
        Some(member_dropped(catalog, words))
    } else if name == ".splash"@ {
        Some(splashed(catalog, words))
    } else if name == ".order"@ {
        Some(ordered(catalog, words))
    } else if name == ".dimensions"@ {
        Some(says(catalog, dimensions_text(catalog.dims), true))
    } else if name == ".tree"@ {
        tree_drawn(catalog, words)
    } else if name == ".run"@ {
        if words.len() == 2 {
            Some(
                Effect {
                    catalog,
                    said: Seq::empty(),
                    step: StepModel::Run { file: words[1] },
                },
            )
        } else {
            Some(says(catalog, line("Usage: .run <filepath>"@), false))
        }
    } else {
        Some(says(catalog, line("Unknown meta-command."@), false))
    }
}

/// What a command does. None where it holds no statement of SQL, or one that the
/// parser cannot be asked to read, or asks for a tree without end.
pub open spec fn command_effect<N: Number>(catalog: CatalogModel<N>, command: Seq<char>) -> Option<
    Effect<N>,
> {
    if command.len() > 0 && command[0] == '.' {
        meta_effect(catalog, words_of(command))
    } else if sql_ready(command) {
        let (after, outcome) = sql_executed(catalog, command);
        Some(says_outcome(after, outcome))
    } else {
        None
    }
}

/// Takes a command apart that needs a file and something to put it into.
fn ask_file(words: &Vec<String>, usage: &str, out: &mut String) -> (r: Option<(String, String)>)
    ensures
        match r {
            Some((file, target)) => words@.len() == 3 && file@ == texts(words@)[1] && target@
                == texts(words@)[2] && final(out)@ == old(out)@,
            None => words@.len() != 3 && final(out)@ == old(out)@ + line(usage@),
        },
{
    if words.len() == 3 {
        assert(texts(words@)[1] == words@[1]@ && texts(words@)[2] == words@[2]@);
        Some((words[1].clone(), words[2].clone()))
    } else {
        push_line(out, usage);
        assert(out@ =~= old(out)@ + line(usage@));
        None
    }
}

fn ask_import<N: Number>(catalog: &Catalog<N>, words: &Vec<String>, out: &mut String) -> (r: Step)
    ensures
        happened(
            import_asked(catalog@, texts(words@)),
            old(out)@,
            catalog@,
            final(out)@,
            r@,
        ),
{
    let ghost start = out@;
    match ask_file(words, "Usage: .import <filepath> <cube>", out) {
        Some((file, cube)) => {
            if catalog.get_cube(cube.as_str()).is_none() {
                push_line(out, "Cube not found.");
                assert(out@ =~= start + line("Cube not found."@));
                Step::Done(false)
            } else {
                assert(out@ =~= start + Seq::<char>::empty());
                Step::Import { file, cube }
            }
        },
        None => Step::Done(false),
    }
}

fn show_cube<N: Number>(catalog: &Catalog<N>, words: &Vec<String>, out: &mut String) -> (r: Step)
    requires
        catalog@.valid(),
    ensures
        happened(cube_shown(catalog@, texts(words@)), old(out)@, catalog@, final(out)@, r@),
{
    let ghost start = out@;
    let ghost all = texts(words@);
    if words.len() != 2 {
        push_line(out, "Usage: .cube <name>");
        assert(out@ =~= start + cube_shown(catalog@, all).said);
        return Step::Done(false);
    }
    assert(all[1] == words@[1]@);
    match catalog.find_cube(words[1].as_str()) {
        Some(place) => {
            assert(catalog@.cubes[place as int].1.fits(catalog@.dims.len()));
            say_cube(&catalog.dimensions, &catalog.cubes[place].1, out);
            Step::Done(true)
        },
        None => {
            push_line(out, cat3("Error: Cube '", words[1].as_str(), "' not found.").as_str());
            assert(out@ =~= start + cube_shown(catalog@, all).said);
            Step::Done(false)
        },
    }
}

/// Does what a line that starts with a dot says.
fn run_meta<N: Number>(catalog: &mut Catalog<N>, words: &Vec<String>, out: &mut String) -> (r: Option<
    Step,
>)
    requires
        old(catalog)@.valid(),
    ensures
        final(catalog)@.valid(),
        match r {
            Some(step) => meta_effect(old(catalog)@, texts(words@)) is Some && happened(
                meta_effect(old(catalog)@, texts(words@))->0,
                old(out)@,
                final(catalog)@,
                final(out)@,
                step@,
            ),
            None => meta_effect(old(catalog)@, texts(words@)) is None && final(catalog)@ == old(
                catalog)@ && final(out)@ == old(out)@,
        },
{
    let ghost start = out@;
    let ghost all = texts(words@);
    let name = if words.len() > 0 {
        assert(all[0] == words@[0]@);
        words[0].as_str()
    } else {
        proof {
            reveal_strlit("");
            assert(""@ =~= Seq::<char>::empty());
        }
        ""
    };
    if same(name, ".help") {
        say_help(out);
        Some(Step::Done(true))
    } else if same(name, ".save") {
        push_line(out, "Database saved.");
        assert(out@ =~= start + line("Database saved."@));
        Some(Step::Save)
    } else if same(name, ".cubes") {
        say_cubes(catalog, out);
        Some(Step::Done(true))
    } else if same(name, ".cube") {
        Some(show_cube(catalog, words, out))
    } else if same(name, ".import") {
        Some(ask_import(catalog, words, out))
    } else if same(name, ".import_pc") {
        match ask_file(words, "Usage: .import_pc <file.csv> <dimension>", out) {
            Some((file, dimension)) => {
                assert(out@ =~= start + Seq::<char>::empty());
                Some(Step::ImportPairs { file, dimension })
            },
            None => Some(Step::Done(false)),
        }
    } else if same(name, ".import_lvl") {
        match ask_file(words, "Usage: .import_lvl <file.csv> <dimension>", out) {
            Some((file, dimension)) => {
                assert(out@ =~= start + Seq::<char>::empty());
                Some(Step::ImportLevels { file, dimension })
            },
            None => Some(Step::Done(false)),
        }
    } else if same(name, ".rollup") {
        Some(roll_up(catalog, words, out))
    } else if same(name, ".detach") {
        Some(detach(catalog, words, out))
    } else if same(name, ".delete_member") || same(name, ".drop_member") {
        Some(drop_member(catalog, words, out))
    } else if same(name, ".splash") {
        assert(words@.len() > 0) by {
            reveal_strlit(".splash");
        }
        Some(splash(catalog, words, out))
    } else if same(name, ".order") {
        Some(order(catalog, words, out))
    } else if same(name, ".dimensions") {
        say_dimensions(&catalog.dimensions, out);
        Some(Step::Done(true))
    } else if same(name, ".tree") {
        draw_tree(catalog, words, out)
    } else if same(name, ".run") {
        if words.len() == 2 {
            assert(all[1] == words@[1]@);
            assert(out@ =~= start + Seq::<char>::empty());
            Some(Step::Run { file: words[1].clone() })
        } else {
            push_line(out, "Usage: .run <filepath>");
            assert(out@ =~= start + line("Usage: .run <filepath>"@));
            Some(Step::Done(false))
        }
    } else {
        push_line(out, "Unknown meta-command.");
        assert(out@ =~= start + line("Unknown meta-command."@));
        Some(Step::Done(false))
    }
}

/// Does what a command says, and appends to `out` what it tells. Returns what
/// is left to do, or none, with nothing done, where the command holds no
/// statement of SQL, or one that the parser cannot be asked to read, or asks for
/// a tree without end.
pub fn process_command<N: Number>(catalog: &mut Catalog<N>, command: &str, out: &mut String) -> (r:
    Option<Step>)
    requires
        old(catalog)@.valid(),
    ensures
        final(catalog)@.valid(),
        match r {
            Some(step) => command_effect(old(catalog)@, command@) is Some && happened(
                command_effect(old(catalog)@, command@)->0,
                old(out)@,
                final(catalog)@,
                final(out)@,
                step@,
            ),
            None => command_effect(old(catalog)@, command@) is None && final(catalog)@ == old(
                catalog)@ && final(out)@ == old(out)@,
        },
{
    let chars = chars_of(command);
    if chars.len() > 0 && chars[0] == '.' {
        let words = tokenize(command);
        return run_meta(catalog, &words, out);
    }
    match try_execute_sql(catalog, command) {
        Some(outcome) => Some(say_outcome(outcome, out)),
        None => None,
    }
}

} // verus!
