//! Finishing the commands that read files.

use crate::catalog::catalog::{Catalog, CatalogModel};
use crate::cube::import::{csv_records, imported, record_models, records_of};
use crate::dimension::dimension::{Dimension, DimensionModel};
use crate::number::Number;
use crate::shell::command::{dim_set, forgotten, happened, line, says, Effect, StepModel};
use crate::text::{
    cat2, cat3, cat5, chars_of, decimal, decimal_text, push_line, texts, trim, trimmed,
};
use vstd::prelude::*;

verus! {

/// The records of a file, if it could be read.
pub open spec fn records_in(data: Option<&[u8]>) -> Option<Seq<Result<Seq<Seq<char>>, Seq<char>>>> {
    match data {
        Some(bytes) => Some(records_of(bytes@, true)),
        None => None,
    }
}

/// Records that were read, if they were.
pub open spec fn records_given(records: Option<&Vec<Result<Vec<String>, String>>>) -> Option<
    Seq<Result<Seq<Seq<char>>, Seq<char>>>,
> {
    match records {
        Some(records) => Some(record_models(records@)),
        None => None,
    }
}

fn read_records(data: Option<&[u8]>) -> (r: Option<Vec<Result<Vec<String>, String>>>)
    ensures
        match r {
            Some(records) => records_in(data) == Some(record_models(records@)),
            None => records_in(data) is None,
        },
{
    match data {
        Some(bytes) => Some(csv_records(bytes, true)),
        None => None,
    }
}

// ---------------------------------------------------------------------------
// Rows
// ---------------------------------------------------------------------------

/// The rows of a file stored in a cube.
pub open spec fn rows_effect<N: Number>(
    catalog: CatalogModel<N>,
    cube: Seq<char>,
    file: Seq<char>,
    records: Option<Seq<Result<Seq<Seq<char>>, Seq<char>>>>,
) -> Effect<N> {
    match (catalog.cube_place(cube), records) {
        (None, _) => says(catalog, line("Cube not found."@), false),
        (_, None) => says(catalog, line("Import failed for '"@ + file + "'."@), false),
        (Some(place), Some(records)) => {
            let (after, dims, outcome) = imported(catalog.cubes[place].1, catalog.dims, records);
            let changed = CatalogModel {
                dims,
                cubes: catalog.cubes.update(place, (catalog.cubes[place].0, after)),
            };
            match outcome {
                Ok(news) => says(changed, line(news), true),
                Err(_) => says(changed, line("Import failed for '"@ + file + "'."@), false),
            }
        },
    }
}

/// Stores records in a cube. True if all could be read.
pub fn import_rows<N: Number>(
    catalog: &mut Catalog<N>,
    cube: &str,
    file: &str,
    records: Option<&Vec<Result<Vec<String>, String>>>,
    out: &mut String,
) -> (ok: bool)
    requires
        old(catalog)@.valid(),
    ensures
        final(catalog)@.valid(),
        happened(
            rows_effect(old(catalog)@, cube@, file@, records_given(records)),
            old(out)@,
            final(catalog)@,
            final(out)@,
            StepModel::Done(ok),
        ),
{
    let ghost was = catalog@;
    let ghost effect = rows_effect(was, cube@, file@, records_given(records));
    let place = match catalog.find_cube(cube) {
        Some(place) => place,
        None => {
            push_line(out, "Cube not found.");
            assert(out@ =~= old(out)@ + effect.said);
            return false;
        },
    };
    let list = match records {
        Some(list) => list,
        None => {
            push_line(out, cat3("Import failed for '", file, "'.").as_str());
            assert(out@ =~= old(out)@ + effect.said);
            return false;
        },
    };
    assert(was.cubes[place as int].1.fits(was.dims.len()));
    let outcome = catalog.cubes[place].1.import_records(&mut catalog.dimensions, list);
    proof {
        assert(catalog@.cubes =~= was.cubes.update(
            place as int,
            (was.cubes[place as int].0, catalog@.cubes[place as int].1),
        ));
        assert forall|k: int| 0 <= k < catalog@.cubes.len() implies (
        #[trigger] catalog@.cubes[k]).1.fits(catalog@.dims.len()) by {
            assert(was.cubes[k].1.fits(was.dims.len()));
        }
    }
    match outcome {
        Ok(news) => {
            push_line(out, news.as_str());
            assert(out@ =~= old(out)@ + effect.said);
            true
        },
        Err(_) => {
            push_line(out, cat3("Import failed for '", file, "'.").as_str());
            assert(out@ =~= old(out)@ + effect.said);
            false
        },
    }
}

/// Finishes `.import` with what the file holds, if it could be read.
pub fn finish_import<N: Number>(
    catalog: &mut Catalog<N>,
    cube: &str,
    file: &str,
    data: Option<&[u8]>,
    out: &mut String,
) -> (ok: bool)
    requires
        old(catalog)@.valid(),
    ensures
        final(catalog)@.valid(),
        happened(
            rows_effect(old(catalog)@, cube@, file@, records_in(data)),
            old(out)@,
            final(catalog)@,
            final(out)@,
            StepModel::Done(ok),
        ),
{
    match read_records(data) {
        Some(records) => import_rows(catalog, cube, file, Some(&records), out),
        None => import_rows(catalog, cube, file, None, out),
    }
}

// ---------------------------------------------------------------------------
// Parents and children
// ---------------------------------------------------------------------------

/// A number that is written, or else one.
pub open spec fn number_or_one<N: Number>(text: Seq<char>) -> N {
    match N::read_spec(text) {
        Some(n) => n,
        None => N::one_spec(),
    }
}

/// The dimension with the relations of the first `n` records: a parent, a child
/// and a weight. Shorter records are left out. Also the number of relations, or
/// why a record could not be read.
pub open spec fn pairs_stored<N: Number>(
    dim: DimensionModel<N>,
    hierarchy: Option<Seq<char>>,
    records: Seq<Result<Seq<Seq<char>>, Seq<char>>>,
    n: int,
) -> (DimensionModel<N>, Result<nat, Seq<char>>)
    decreases n,
{
    if n <= 0 {
        (dim, Ok(0))
    } else {
        match (pairs_stored(dim, hierarchy, records, n - 1), records[n - 1]) {
            ((before, Err(e)), _) => (before, Err(e)),
            ((before, Ok(_)), Err(e)) => (before, Err(e)),
            ((before, Ok(count)), Ok(fields)) => if fields.len() >= 3 {
                (
                    before.component_added(
                        hierarchy,
                        fields[0],
                        fields[1],
                        number_or_one(fields[2]),
                    ).0,
                    Ok(count + 1),
                )
            } else {
                (before, Ok(count))
            },
        }
    }
}

proof fn pairs_stay_failed<N: Number>(
    dim: DimensionModel<N>,
    hierarchy: Option<Seq<char>>,
    records: Seq<Result<Seq<Seq<char>>, Seq<char>>>,
    n: int,
    end: int,
)
    requires
        0 <= n <= end,
        pairs_stored(dim, hierarchy, records, n).1 is Err,
    ensures
        pairs_stored(dim, hierarchy, records, end) == pairs_stored(dim, hierarchy, records, n),
    decreases end - n,
{
    if n < end {
        pairs_stay_failed(dim, hierarchy, records, n + 1, end);
    }
}

fn store_pairs<N: Number>(
    dim: &mut Dimension<N>,
    hierarchy: &str,
    records: &Vec<Result<Vec<String>, String>>,
) -> (r: Result<usize, String>)
    ensures
        final(dim)@ == pairs_stored(
            old(dim)@,
            Some(hierarchy@),
            record_models(records@),
            records@.len() as int,
        ).0,
        match r {
            Ok(count) => pairs_stored(
                old(dim)@,
                Some(hierarchy@),
                record_models(records@),
                records@.len() as int,
            ).1 == Ok::<nat, Seq<char>>(count as nat),
            Err(e) => pairs_stored(
                old(dim)@,
                Some(hierarchy@),
                record_models(records@),
                records@.len() as int,
            ).1 == Err::<nat, Seq<char>>(e@),
        },
{
    let ghost was = dim@;
    let ghost all = record_models(records@);
    let mut count: usize = 0;
    let mut i: usize = 0;
    while i < records.len()
        invariant
            i <= records@.len(),
            count <= i,
            was == old(dim)@,
            all == record_models(records@),
            pairs_stored(was, Some(hierarchy@), all, i as int) == (dim@, Ok::<nat, Seq<char>>(count as nat)),
        decreases records@.len() - i,
    {
        match &records[i] {
            Ok(fields) => {
                assert(all[i as int] == Ok::<Seq<Seq<char>>, Seq<char>>(texts(fields@)));
                if fields.len() >= 3 {
                    assert(texts(fields@)[0] == fields@[0]@ && texts(fields@)[1] == fields@[1]@
                        && texts(fields@)[2] == fields@[2]@);
                    let weight = match N::read(fields[2].as_str()) {
                        Some(n) => n,
                        None => N::one(),
                    };
                    let _ = dim.add_component_in(
                        Some(hierarchy),
                        fields[0].as_str(),
                        fields[1].as_str(),
                        weight,
                    );
                    count += 1;
                }
            },
            Err(e) => {
                assert(all[i as int] == Err::<Seq<Seq<char>>, Seq<char>>(e@));
                proof {
                    pairs_stay_failed(was, Some(hierarchy@), all, i as int + 1, all.len() as int);
                }
                return Err(e.clone());
            },
        }
        i += 1;
    }
    Ok(count)
}

// ---------------------------------------------------------------------------
// Levels
// ---------------------------------------------------------------------------

/// The fields of a record that are not blank, trimmed.
pub open spec fn levels_in(fields: Seq<Seq<char>>) -> Seq<Seq<char>>
    decreases fields.len(),
{
    if fields.len() == 0 {
        fields
    } else if trimmed(fields.last()).len() == 0 {
        levels_in(fields.drop_last())
    } else {
        levels_in(fields.drop_last()).push(trimmed(fields.last()))
    }
}

/// The dimension with each level but the first under the one before it, up to
/// the first `n` levels.
pub open spec fn levels_linked<N: Number>(
    dim: DimensionModel<N>,
    hierarchy: Option<Seq<char>>,
    levels: Seq<Seq<char>>,
    n: int,
) -> DimensionModel<N>
    decreases n,
{
    if n <= 1 {
        dim
    } else {
        levels_linked(dim, hierarchy, levels, n - 1).component_added(
            hierarchy,
            levels[n - 2],
            levels[n - 1],
            N::one_spec(),
        ).0
    }
}

/// How many relations there are between so many levels.
pub open spec fn relations(levels: nat) -> nat {
    if levels == 0 {
        0
    } else {
        (levels - 1) as nat
    }
}

/// The dimension with the relations of the first `n` records, each of which
/// goes down level by level, blanks left out. Also the number of relations, or
/// why a record could not be read.
pub open spec fn levels_stored<N: Number>(
    dim: DimensionModel<N>,
    hierarchy: Option<Seq<char>>,
    records: Seq<Result<Seq<Seq<char>>, Seq<char>>>,
    n: int,
) -> (DimensionModel<N>, Result<nat, Seq<char>>)
    decreases n,
{
    if n <= 0 {
        (dim, Ok(0))
    } else {
        match (levels_stored(dim, hierarchy, records, n - 1), records[n - 1]) {
            ((before, Err(e)), _) => (before, Err(e)),
            ((before, Ok(_)), Err(e)) => (before, Err(e)),
            ((before, Ok(count)), Ok(fields)) => {
                let levels = levels_in(fields);
                (
                    levels_linked(before, hierarchy, levels, levels.len() as int),
                    Ok(count + relations(levels.len())),
                )
            },
        }
    }
}

proof fn levels_stay_failed<N: Number>(
    dim: DimensionModel<N>,
    hierarchy: Option<Seq<char>>,
    records: Seq<Result<Seq<Seq<char>>, Seq<char>>>,
    n: int,
    end: int,
)
    requires
        0 <= n <= end,
        levels_stored(dim, hierarchy, records, n).1 is Err,
    ensures
        levels_stored(dim, hierarchy, records, end) == levels_stored(dim, hierarchy, records, n),
    decreases end - n,
{
    if n < end {
        levels_stay_failed(dim, hierarchy, records, n + 1, end);
    }
}

fn find_levels(fields: &Vec<String>) -> (r: Vec<String>)
    ensures
        texts(r@) == levels_in(texts(fields@)),
{
    let ghost all = texts(fields@);
    let mut out: Vec<String> = Vec::new();
    let mut i: usize = 0;
    assert(texts(out@) =~= levels_in(all.take(0)));
    while i < fields.len()
        invariant
            i <= fields@.len(),
            all == texts(fields@),
            texts(out@) == levels_in(all.take(i as int)),
        decreases fields@.len() - i,
    {
        assert(all.take(i as int + 1).drop_last() =~= all.take(i as int));
        assert(all[i as int] == fields@[i as int]@);
        let level = trim(fields[i].as_str());
        if chars_of(level.as_str()).len() > 0 {
            let ghost done = texts(out@);
            let ghost text = level@;
            out.push(level);
            assert(texts(out@) =~= done.push(text));
        }
        i += 1;
    }
    assert(all.take(i as int) =~= all);
    out
}

fn link_levels<N: Number>(dim: &mut Dimension<N>, hierarchy: &str, levels: &Vec<String>)
    ensures
        final(dim)@ == levels_linked(
            old(dim)@,
            Some(hierarchy@),
            texts(levels@),
            levels@.len() as int,
        ),
{
    let ghost was = dim@;
    let ghost all = texts(levels@);
    if levels.len() < 2 {
        return ;
    }
    let mut i: usize = 1;
    while i < levels.len()
        invariant
            1 <= i <= levels@.len(),
            was == old(dim)@,
            all == texts(levels@),
            dim@ == levels_linked(was, Some(hierarchy@), all, i as int),
        decreases levels@.len() - i,
    {
        assert(all[i as int - 1] == levels@[i as int - 1]@ && all[i as int] == levels@[i as int]@);
        let _ = dim.add_component_in(
            Some(hierarchy),
            levels[i - 1].as_str(),
            levels[i].as_str(),
            N::one(),
        );
        i += 1;
    }
}

fn store_levels<N: Number>(
    dim: &mut Dimension<N>,
    hierarchy: &str,
    records: &Vec<Result<Vec<String>, String>>,
) -> (r: Result<u128, String>)
    ensures
        final(dim)@ == levels_stored(
            old(dim)@,
            Some(hierarchy@),
            record_models(records@),
            records@.len() as int,
        ).0,
        match r {
            Ok(count) => levels_stored(
                old(dim)@,
                Some(hierarchy@),
                record_models(records@),
                records@.len() as int,
            ).1 == Ok::<nat, Seq<char>>(count as nat),
            Err(e) => levels_stored(
                old(dim)@,
                Some(hierarchy@),
                record_models(records@),
                records@.len() as int,
            ).1 == Err::<nat, Seq<char>>(e@),
        },
{
    let ghost was = dim@;
    let ghost all = record_models(records@);
    let mut count: u128 = 0;
    let mut i: usize = 0;
    while i < records.len()
        invariant
            i <= records@.len(),
            count <= i * 0xffff_ffff_ffff_ffff,
            was == old(dim)@,
            all == record_models(records@),
            levels_stored(was, Some(hierarchy@), all, i as int) == (dim@, Ok::<nat, Seq<char>>(count as nat)),
        decreases records@.len() - i,
    {
        match &records[i] {
            Ok(fields) => {
                assert(all[i as int] == Ok::<Seq<Seq<char>>, Seq<char>>(texts(fields@)));
                let levels = find_levels(fields);
                assert(texts(levels@).len() == levels@.len());
                link_levels(dim, hierarchy, &levels);
                let n = levels.len();
                assert(n <= 0xffff_ffff_ffff_ffff);
                assert(i < 0xffff_ffff_ffff_ffff);
                if n > 0 {
                    count += (n - 1) as u128;
                }
            },
            Err(e) => {
                assert(all[i as int] == Err::<Seq<Seq<char>>, Seq<char>>(e@));
                proof {
                    levels_stay_failed(was, Some(hierarchy@), all, i as int + 1, all.len() as int);
                }
                return Err(e.clone());
            },
        }
        i += 1;
    }
    Ok(count)
}

// ---------------------------------------------------------------------------
// Relations
// ---------------------------------------------------------------------------

/// The relations of a file in a hierarchy: the one of that name, or else the
/// default one of the dimension of that name, which is made where there is none.
pub open spec fn relations_effect<N: Number>(
    catalog: CatalogModel<N>,
    dimension: Seq<char>,
    stored: (DimensionModel<N>, Result<nat, Seq<char>>),
    kind: Seq<char>,
) -> Effect<N> {
    let (made, i, _, _) = catalog.reference_resolved(dimension);
    let after = forgotten(dim_set(made, i, stored.0));
    match stored.1 {
        Ok(count) => says(
            after,
            line("Imported "@ + decimal(count) + kind + dimension + "'."@),
            true,
        ),
        Err(e) => says(after, line("Import failed: bad CSV row: "@ + e), false),
    }
}

/// The parents and children of a file in a dimension.
pub open spec fn pairs_effect<N: Number>(
    catalog: CatalogModel<N>,
    dimension: Seq<char>,
    file: Seq<char>,
    records: Option<Seq<Result<Seq<Seq<char>>, Seq<char>>>>,
) -> Effect<N> {
    match records {
        None => says(catalog, line("Could not open '"@ + file + "'."@), false),
        Some(records) => {
            let (made, i, hierarchy, _) = catalog.reference_resolved(dimension);
            relations_effect(
                catalog,
                dimension,
                pairs_stored(made.dims[i], Some(hierarchy), records, records.len() as int),
                " parent-child relations into '"@,
            )
        },
    }
}

/// The levels of a file in a dimension.
pub open spec fn levels_effect<N: Number>(
    catalog: CatalogModel<N>,
    dimension: Seq<char>,
    file: Seq<char>,
    records: Option<Seq<Result<Seq<Seq<char>>, Seq<char>>>>,
) -> Effect<N> {
    match records {
        None => says(catalog, line("Could not open '"@ + file + "'."@), false),
        Some(records) => {
            let (made, i, hierarchy, _) = catalog.reference_resolved(dimension);
            relations_effect(
                catalog,
                dimension,
                levels_stored(made.dims[i], Some(hierarchy), records, records.len() as int),
                " level relations into '"@,
            )
        },
    }
}

/// Puts parents and children into a dimension. True if all could be read.
pub fn import_pairs<N: Number>(
    catalog: &mut Catalog<N>,
    dimension: &str,
    file: &str,
    records: Option<&Vec<Result<Vec<String>, String>>>,
    out: &mut String,
) -> (ok: bool)
    requires
        old(catalog)@.valid(),
    ensures
        final(catalog)@.valid(),
        happened(
            pairs_effect(old(catalog)@, dimension@, file@, records_given(records)),
            old(out)@,
            final(catalog)@,
            final(out)@,
            StepModel::Done(ok),
        ),
{
    let ghost effect = pairs_effect(old(catalog)@, dimension@, file@, records_given(records));
    let list = match records {
        Some(list) => list,
        None => {
            push_line(out, cat3("Could not open '", file, "'.").as_str());
            assert(out@ =~= old(out)@ + effect.said);
            return false;
        },
    };
    let (place, hier, _) = catalog.resolve_reference(dimension);
    let ghost made = catalog@;
    let stored = store_pairs(&mut catalog.dimensions[place], hier.as_str(), list);
    assert(catalog@.dims =~= made.dims.update(place as int, catalog@.dims[place as int]));
    catalog.clear_all_caches();
    match stored {
        Ok(count) => {
            push_line(
                out,
                cat5(
                    "Imported ",
                    decimal_text(count as u128).as_str(),
                    " parent-child relations into '",
                    dimension,
                    "'.",
                ).as_str(),
            );
            assert(out@ =~= old(out)@ + effect.said);
            true
        },
        Err(e) => {
            push_line(out, cat2("Import failed: bad CSV row: ", e.as_str()).as_str());
            assert(out@ =~= old(out)@ + effect.said);
            false
        },
    }
}

/// Puts levels into a dimension. True if all could be read.
pub fn import_levels<N: Number>(
    catalog: &mut Catalog<N>,
    dimension: &str,
    file: &str,
    records: Option<&Vec<Result<Vec<String>, String>>>,
    out: &mut String,
) -> (ok: bool)
    requires
        old(catalog)@.valid(),
    ensures
        final(catalog)@.valid(),
        happened(
            levels_effect(old(catalog)@, dimension@, file@, records_given(records)),
            old(out)@,
            final(catalog)@,
            final(out)@,
            StepModel::Done(ok),
        ),
{
    let ghost effect = levels_effect(old(catalog)@, dimension@, file@, records_given(records));
    let list = match records {
        Some(list) => list,
        None => {
            push_line(out, cat3("Could not open '", file, "'.").as_str());
            assert(out@ =~= old(out)@ + effect.said);
            return false;
        },
    };
    let (place, hier, _) = catalog.resolve_reference(dimension);
    let ghost made = catalog@;
    let stored = store_levels(&mut catalog.dimensions[place], hier.as_str(), list);
    assert(catalog@.dims =~= made.dims.update(place as int, catalog@.dims[place as int]));
    catalog.clear_all_caches();
    match stored {
        Ok(count) => {
            push_line(
                out,
                cat5(
                    "Imported ",
                    decimal_text(count).as_str(),
                    " level relations into '",
                    dimension,
                    "'.",
                ).as_str(),
            );
            assert(out@ =~= old(out)@ + effect.said);
            true
        },
        Err(e) => {
            push_line(out, cat2("Import failed: bad CSV row: ", e.as_str()).as_str());
            assert(out@ =~= old(out)@ + effect.said);
            false
        },
    }
}

/// Finishes `.import_pc` with what the file holds, if it could be read.
pub fn finish_pairs<N: Number>(
    catalog: &mut Catalog<N>,
    dimension: &str,
    file: &str,
    data: Option<&[u8]>,
    out: &mut String,
) -> (ok: bool)
    requires
        old(catalog)@.valid(),
    ensures
        final(catalog)@.valid(),
        happened(
            pairs_effect(old(catalog)@, dimension@, file@, records_in(data)),
            old(out)@,
            final(catalog)@,
            final(out)@,
            StepModel::Done(ok),
        ),
{
    match read_records(data) {
        Some(records) => import_pairs(catalog, dimension, file, Some(&records), out),
        None => import_pairs(catalog, dimension, file, None, out),
    }
}

/// Finishes `.import_lvl` with what the file holds, if it could be read.
pub fn finish_levels<N: Number>(
    catalog: &mut Catalog<N>,
    dimension: &str,
    file: &str,
    data: Option<&[u8]>,
    out: &mut String,
) -> (ok: bool)
    requires
        old(catalog)@.valid(),
    ensures
        final(catalog)@.valid(),
        happened(
            levels_effect(old(catalog)@, dimension@, file@, records_in(data)),
            old(out)@,
            final(catalog)@,
            final(out)@,
            StepModel::Done(ok),
        ),
{
    match read_records(data) {
        Some(records) => import_levels(catalog, dimension, file, Some(&records), out),
        None => import_levels(catalog, dimension, file, None, out),
    }
}

} // verus!
