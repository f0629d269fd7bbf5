//! Reading rows of data from CSV.

use crate::cube::cube::{dims_of, Cube, CubeModel};
use crate::cube::node::{CellModel, CellValue};
use crate::dimension::dimension::{Dimension, DimensionModel};
use crate::number::Number;
use crate::text::{answer, cat2, cat4, cat5, decimal, decimal_text, texts, words};
use vstd::prelude::*;

verus! {

/// The records of CSV data: each a row of fields, or the reader's complaint.
pub uninterp spec fn records_of(data: Seq<u8>, has_headers: bool) -> Seq<
    Result<Seq<Seq<char>>, Seq<char>>,
>;

/// Records with text as characters.
pub open spec fn record_models(records: Seq<Result<Vec<String>, String>>) -> Seq<
    Result<Seq<Seq<char>>, Seq<char>>,
> {
    Seq::new(
        records.len(),
        |i: int|
            match records[i] {
                Ok(fields) => Ok(texts(fields@)),
                Err(e) => Err(e@),
            },
    )
}

/// `csv::Reader::records` of a reader built by `csv::ReaderBuilder` over bytes
/// in memory, with or without a first row of headers, which is left out, and
/// with rows of any length. The records depend on nothing else. An error comes
/// as its `Display` writes it.
#[verifier::external_body]
pub(crate) fn csv_records(data: &[u8], has_headers: bool) -> (r: Vec<Result<Vec<String>, String>>)
    ensures
        record_models(r@) == records_of(data@, has_headers),
{
    let mut builder = csv::ReaderBuilder::new();
    let mut reader = builder.has_headers(has_headers).flexible(true).from_reader(data);
    reader.records().map(|record| match record {
        Ok(fields) => Ok(fields.iter().map(|field| field.to_string()).collect()),
        Err(e) => Err(e.to_string()),
    }).collect()
}

/// The number of rows stored, and of those that were too short.
pub struct ImportModel {
    pub rows: nat,
    pub skipped: nat,
}

/// The cube and the dimensions after the first `n` records were stored. A record
/// has a member for each dimension and the value behind them; the first that
/// could not be read ends the import.
pub open spec fn records_stored<N: Number>(
    cube: CubeModel<N>,
    dims: Seq<DimensionModel<N>>,
    records: Seq<Result<Seq<Seq<char>>, Seq<char>>>,
    n: int,
) -> (CubeModel<N>, Seq<DimensionModel<N>>, Result<ImportModel, Seq<char>>)
    decreases n,
{
    if n <= 0 {
        (cube, dims, Ok(ImportModel { rows: 0, skipped: 0 }))
    } else {
        match (records_stored(cube, dims, records, n - 1), records[n - 1]) {
            ((cube, dims, Err(e)), _) => (cube, dims, Err(e)),
            ((cube, dims, Ok(_)), Err(e)) => (cube, dims, Err(e)),
            ((cube, dims, Ok(done)), Ok(fields)) => {
                let count = cube.dimensions.len();
                if fields.len() < count + 1 {
                    (
                        cube,
                        dims,
                        Ok(ImportModel { rows: done.rows, skipped: done.skipped + 1 }),
                    )
                } else {
                    let value = fields[count as int];
                    let (after, coords) = cube.leaves_added(dims, fields.take(count as int));
                    (
                        cube.written(coords, CellModel::read(value, value)),
                        after,
                        Ok(ImportModel { rows: done.rows + 1, skipped: done.skipped }),
                    )
                }
            },
        }
    }
}

/// The news of an import.
pub open spec fn import_news<N>(cube: CubeModel<N>, done: ImportModel) -> Seq<char> {
    let news = "Successfully imported "@ + decimal(done.rows) + " rows into cube '"@ + cube.name;
    if done.skipped > 0 {
        news + ("' (skipped "@ + decimal(done.skipped) + " row(s) with fewer than "@ + decimal(
            cube.dimensions.len() + 1,
        ) + " column(s))."@)
    } else {
        news + "'."@
    }
}

/// The cube and the dimensions after an import, and the news of it.
pub open spec fn imported<N: Number>(
    cube: CubeModel<N>,
    dims: Seq<DimensionModel<N>>,
    records: Seq<Result<Seq<Seq<char>>, Seq<char>>>,
) -> (CubeModel<N>, Seq<DimensionModel<N>>, Result<Seq<char>, Seq<char>>) {
    match records_stored(cube, dims, records, records.len() as int) {
        (after, dims_after, Ok(done)) => (after, dims_after, Ok(import_news(cube, done))),
        (after, dims_after, Err(e)) => (after, dims_after, Err(e)),
    }
}

pub proof fn records_stay_failed<N: Number>(
    cube: CubeModel<N>,
    dims: Seq<DimensionModel<N>>,
    records: Seq<Result<Seq<Seq<char>>, Seq<char>>>,
    n: int,
    end: int,
)
    requires
        0 <= n <= end,
        records_stored(cube, dims, records, n).2 is Err,
    ensures
        records_stored(cube, dims, records, end) == records_stored(cube, dims, records, n),
    decreases end - n,
{
    if n < end {
        records_stay_failed(cube, dims, records, n + 1, end);
    }
}

impl<N: Number> Cube<N> {
    /// Stores the rows of CSV data: a column for each dimension, in order, and
    /// the value behind them. Rows that are too short are left out. The first
    /// row that cannot be read ends the import.
    pub fn import_csv(&mut self, dims: &mut Vec<Dimension<N>>, data: &[u8], has_headers: bool) -> (r:
        Result<String, String>)
        requires
            old(self)@.fits(old(dims)@.len()),
        ensures
            ({
                let (cube, after, outcome) = imported(
                    old(self)@,
                    dims_of(old(dims)@),
                    records_of(data@, has_headers),
                );
                &&& final(self)@ == cube
                &&& dims_of(final(dims)@) == after
                &&& answer(r) == outcome
            }),
            final(dims)@.len() == old(dims)@.len(),
            final(self)@.fits(final(dims)@.len()),
    {
        let records = csv_records(data, has_headers);
        self.import_records(dims, &records)
    }

    /// Stores records.
    pub fn import_records(
        &mut self,
        dims: &mut Vec<Dimension<N>>,
        records: &Vec<Result<Vec<String>, String>>,
    ) -> (r: Result<String, String>)
        requires
            old(self)@.fits(old(dims)@.len()),
        ensures
            ({
                let (cube, after, outcome) = imported(
                    old(self)@,
                    dims_of(old(dims)@),
                    record_models(records@),
                );
                &&& final(self)@ == cube
                &&& dims_of(final(dims)@) == after
                &&& answer(r) == outcome
            }),
            final(dims)@.len() == old(dims)@.len(),
            final(self)@.fits(final(dims)@.len()),
    {
        let ghost was = self@;
        let ghost dims_before = dims_of(dims@);
        let ghost all = record_models(records@);
        let count = self.dimensions.len();
        let mut rows: usize = 0;
        let mut skipped: usize = 0;
        let mut i: usize = 0;
        while i < records.len()
            invariant
                i <= records@.len(),
                was == old(self)@,
                dims_before == dims_of(old(dims)@),
                dims@.len() == old(dims)@.len(),
                all == record_models(records@),
                self@.fits(dims@.len()),
                count == self@.dimensions.len(),
                self@.name == was.name,
                self@.dimensions == was.dimensions,
                self@.dimension_names == was.dimension_names,
                self@.measure_dimension == was.measure_dimension,
                rows + skipped == i,
                records_stored(was, dims_before, all, i as int) == (
                    self@,
                    dims_of(dims@),
                    Ok::<ImportModel, Seq<char>>(
                        ImportModel { rows: rows as nat, skipped: skipped as nat },
                    ),
                ),
            decreases records@.len() - i,
        {
            match &records[i] {
                Ok(fields) => {
                    assert(all[i as int] == Ok::<Seq<Seq<char>>, Seq<char>>(texts(fields@)));
                    if fields.len() <= count {
                        skipped += 1;
                    } else {
                        let ghost members = texts(fields@).take(count as int);
                        let refs = first_slices(fields, count);
                        assert(words(refs@).len() == members.len());
                        let value = fields[count].as_str();
                        assert(texts(fields@)[count as int] == value@);
                        self.write(dims, refs.as_slice(), CellValue::read(value, value.to_string()));
                        rows += 1;
                    }
                },
                Err(e) => {
                    assert(all[i as int] == Err::<Seq<Seq<char>>, Seq<char>>(e@));
                    proof {
                        records_stay_failed(was, dims_before, all, i as int + 1, all.len() as int);
                    }
                    return Err(e.clone());
                },
            }
            i += 1;
        }
        let news = cat4(
            "Successfully imported ",
            decimal_text(rows as u128).as_str(),
            " rows into cube '",
            self.name.as_str(),
        );
        if skipped > 0 {
            let more = cat5(
                "' (skipped ",
                decimal_text(skipped as u128).as_str(),
                " row(s) with fewer than ",
                decimal_text(count as u128 + 1).as_str(),
                " column(s)).",
            );
            Ok(cat2(news.as_str(), more.as_str()))
        } else {
            Ok(cat2(news.as_str(), "'."))
        }
    }
}

/// The first strings as slices.
fn first_slices(v: &Vec<String>, n: usize) -> (r: Vec<&str>)
    requires
        n <= v@.len(),
    ensures
        words(r@) == texts(v@).take(n as int),
{
    let ghost all = texts(v@);
    let mut out: Vec<&str> = Vec::new();
    let mut i: usize = 0;
    assert(words(out@) =~= all.take(0));
    while i < n
        invariant
            i <= n <= v@.len(),
            all == texts(v@),
            words(out@) == all.take(i as int),
        decreases n - i,
    {
        let ghost done = words(out@);
        out.push(v[i].as_str());
        assert(words(out@) =~= done.push(all[i as int]));
        assert(words(out@) =~= all.take(i as int + 1));
        i += 1;
    }
    out
}

} // verus!
