use crate::cube::node::{CellModel, CellValue};
use crate::dimension::dimension::{Dimension, DimensionModel, MemberType};
use crate::number::Number;
use crate::storage::id_map::{copy_ids, pairs, pairs_of};
use crate::storage::sparse_store::{modelled, modelled_insert, modelled_restrict, SparseStore};
use crate::text::{
    cat3, cat5, chars_of, decimal, decimal_text, find_last_char, last_index_of, optional,
    text_between, texts, word, words,
};
use vstd::prelude::*;

verus! {

broadcast use {
    vstd::std_specs::btree::group_btree_axioms,
    vstd::laws_cmp::group_laws_cmp,
    modelled_insert,
    modelled_restrict,
};

/// A coordinate as the name of a hierarchy and of a member of it. The last
/// colon parts them; where there is none, or nothing on one side of it, the
/// whole is a member of the default hierarchy.
pub open spec fn split(coord: Seq<char>) -> (Option<Seq<char>>, Seq<char>) {
    match last_index_of(coord, ':') {
        Some(i) => if 0 < i < coord.len() - 1 {
            (Some(coord.take(i)), coord.skip(i + 1))
        } else {
            (None, coord)
        },
        None => (None, coord),
    }
}

/// Splits a coordinate into the name of a hierarchy, if it has one, and the
/// name of a member: `ByMarket:All` is `All` of `ByMarket`, and `All` is `All`
/// of the default hierarchy.
pub fn split_qualified(coord: &str) -> (r: (Option<String>, String))
    ensures
        (optional(r.0), r.1@) == split(coord@),
{
    let chars = chars_of(coord);
    match find_last_char(&chars, ':') {
        Some(i) => if i > 0 && i < chars.len() - 1 {
            let ghost at = i as int;
            assert(chars@.subrange(0, at) =~= coord@.take(at));
            assert(chars@.subrange(at + 1, chars@.len() as int) =~= coord@.skip(at + 1));
            (Some(text_between(&chars, 0, i)), text_between(&chars, i + 1, chars.len()))
        } else {
            (None, coord.to_string())
        },
        None => (None, coord.to_string()),
    }
}

/// What becomes of the data that is there when a value is spread over leaves.
#[derive(Clone, Copy, PartialEq, Eq, Debug, Structural)]
pub enum SplashMode {
    /// Each leaf takes its share instead of what it holds.
    Replace,
    /// Each leaf takes its share on top of what it holds.
    Add,
}

/// A cube: cells at the crossings of its dimensions.
pub struct Cube<N> {
    pub name: String,
    pub dimension_names: Vec<String>,
    /// The dimension whose members are measures.
    pub measure_dimension: Option<String>,
    /// True for data, which is summed up; false for attributes, which are not.
    pub is_aggregating: bool,
    /// The places of the cube's dimensions among all dimensions.
    pub dimensions: Vec<usize>,
    pub store: SparseStore<CellValue<N>>,
    /// The answers of `query_consolidated` since the last change, by the ids
    /// that were asked for.
    pub query_cache: SparseStore<N>,
}

/// What a cube holds.
#[verifier::ext_equal]
pub struct CubeModel<N> {
    pub name: Seq<char>,
    pub dimension_names: Seq<Seq<char>>,
    pub measure_dimension: Option<Seq<char>>,
    pub is_aggregating: bool,
    pub dimensions: Seq<usize>,
    pub cells: Map<Seq<u32>, CellModel<N>>,
    pub cache: Map<Seq<u32>, N>,
}

impl<N: Number> View for Cube<N> {
    type V = CubeModel<N>;

    open spec fn view(&self) -> CubeModel<N> {
        CubeModel {
            name: self.name@,
            dimension_names: texts(self.dimension_names@),
            measure_dimension: optional(self.measure_dimension),
            is_aggregating: self.is_aggregating,
            dimensions: self.dimensions@,
            cells: modelled(self.store@),
            cache: self.query_cache@,
        }
    }
}

/// What each dimension holds.
pub open spec fn dims_of<N: Number>(dims: Seq<Dimension<N>>) -> Seq<DimensionModel<N>> {
    Seq::new(dims.len(), |i: int| dims[i]@)
}

// ---------------------------------------------------------------------------
// Spreading a value
// ---------------------------------------------------------------------------

/// The cells at the crossings of what was crossed so far with the leaves of one
/// dimension more. Weights multiply.
pub open spec fn crossed<N: Number>(cells: Seq<(Seq<u32>, N)>, leaves: Seq<(u32, N)>) -> Seq<
    (Seq<u32>, N),
>
    decreases cells.len(),
{
    if cells.len() == 0 {
        Seq::empty()
    } else {
        let (coords, weight) = cells.last();
        crossed(cells.drop_last(), leaves) + Seq::new(
            leaves.len(),
            |i: int| (coords.push(leaves[i].0), weight.times_spec(leaves[i].1)),
        )
    }
}

/// The cells at the crossings of the leaves of each dimension, with the
/// products of their weights.
pub open spec fn product<N: Number>(lists: Seq<Seq<(u32, N)>>) -> Seq<(Seq<u32>, N)>
    decreases lists.len(),
{
    if lists.len() == 0 {
        seq![(Seq::empty(), N::one_spec())]
    } else {
        crossed(product(lists.drop_last()), lists.last())
    }
}

/// The sum of the squares of the weights.
pub open spec fn total_square<N: Number>(cells: Seq<(Seq<u32>, N)>) -> N
    decreases cells.len(),
{
    if cells.len() == 0 {
        N::zero_spec()
    } else {
        total_square(cells.drop_last()).plus_spec(cells.last().1.times_spec(cells.last().1))
    }
}

/// The share of a cell goes by its weight, and has the sign of it. Counted by
/// that weight again, the shares add up to the value.
pub open spec fn share_of<N: Number>(scale: N, weight: N) -> N {
    scale.times_spec(weight)
}

/// The number at a coordinate; nought where there is none.
pub open spec fn number_at<N: Number>(cells: Map<Seq<u32>, CellModel<N>>, coords: Seq<u32>) -> N {
    if cells.contains_key(coords) {
        cells[coords].amount()
    } else {
        N::zero_spec()
    }
}

/// The cells after each part took its share.
pub open spec fn allocated<N: Number>(
    cells: Map<Seq<u32>, CellModel<N>>,
    parts: Seq<(Seq<u32>, N)>,
    scale: N,
    mode: SplashMode,
) -> Map<Seq<u32>, CellModel<N>>
    decreases parts.len(),
{
    if parts.len() == 0 {
        cells
    } else {
        let before = allocated(cells, parts.drop_last(), scale, mode);
        let (coords, weight) = parts.last();
        let share = share_of(scale, weight);
        before.insert(
            coords,
            CellModel::Numeric(
                match mode {
                    SplashMode::Replace => share,
                    SplashMode::Add => number_at(before, coords).plus_spec(share),
                },
            ),
        )
    }
}

// ---------------------------------------------------------------------------
// Summing up
// ---------------------------------------------------------------------------

/// The sum over the crossings of the leaves of each dimension, from `coords`
/// on: each number counts by the product of the weights that lead to it.
pub open spec fn summed<N: Number>(
    cells: Map<Seq<u32>, CellModel<N>>,
    lists: Seq<Seq<(u32, N)>>,
    coords: Seq<u32>,
    weight: N,
) -> N
    decreases lists.len() - coords.len(), 1nat, 0nat,
{
    if coords.len() >= lists.len() {
        if cells.contains_key(coords) && cells[coords] is Numeric {
            cells[coords]->Numeric_0.times_spec(weight)
        } else {
            N::zero_spec()
        }
    } else {
        summed_over(cells, lists, coords, weight, lists[coords.len() as int].len())
    }
}

/// The sum over the first `n` leaves of the next dimension.
pub open spec fn summed_over<N: Number>(
    cells: Map<Seq<u32>, CellModel<N>>,
    lists: Seq<Seq<(u32, N)>>,
    coords: Seq<u32>,
    weight: N,
    n: nat,
) -> N
    decreases lists.len() - coords.len(), 0nat, n,
{
    if n == 0 || coords.len() >= lists.len() {
        N::zero_spec()
    } else {
        let (leaf, share) = lists[coords.len() as int][n - 1];
        summed_over(cells, lists, coords, weight, (n - 1) as nat).plus_spec(
            summed(cells, lists, coords.push(leaf), weight.times_spec(share)),
        )
    }
}

// ---------------------------------------------------------------------------
// What the operations do
// ---------------------------------------------------------------------------

impl<N: Number> CubeModel<N> {
    pub open spec fn fresh(
        name: Seq<char>,
        dimension_names: Seq<Seq<char>>,
        dimensions: Seq<usize>,
        measure_dimension: Option<Seq<char>>,
        is_aggregating: bool,
    ) -> Self {
        CubeModel {
            name,
            dimension_names,
            measure_dimension,
            is_aggregating,
            dimensions,
            cells: Map::empty(),
            cache: Map::empty(),
        }
    }

    /// The cube's dimensions are among the first `count`, one for each name.
    pub open spec fn fits(self, count: nat) -> bool {
        &&& self.dimension_names.len() == self.dimensions.len()
        &&& forall|i: int| 0 <= i < self.dimensions.len() ==> #[trigger] self.dimensions[i] < count
    }

    /// The dimension of a coordinate.
    pub open spec fn dim(self, dims: Seq<DimensionModel<N>>, i: int) -> DimensionModel<N> {
        dims[self.dimensions[i] as int]
    }

    /// The cube with a cell in it. What was summed up before is forgotten.
    pub open spec fn written(self, coords: Seq<u32>, cell: CellModel<N>) -> Self {
        CubeModel { cells: self.cells.insert(coords, cell), cache: Map::empty(), ..self }
    }

    /// The dimensions with a leaf for each member, and the leaves' ids.
    pub open spec fn leaves_added(
        self,
        dims: Seq<DimensionModel<N>>,
        members: Seq<Seq<char>>,
    ) -> (Seq<DimensionModel<N>>, Seq<u32>)
        decreases members.len(),
    {
        if members.len() == 0 {
            (dims, Seq::empty())
        } else {
            let (before, coords) = self.leaves_added(dims, members.drop_last());
            let slot = self.dimensions[members.len() - 1] as int;
            let (dim, id) = before[slot].leaf_added(members.last());
            (before.update(slot, dim), coords.push(id))
        }
    }

    /// A coordinate names an aggregate.
    pub open spec fn names_aggregate(
        self,
        dims: Seq<DimensionModel<N>>,
        members: Seq<Seq<char>>,
        i: int,
    ) -> bool {
        let (hierarchy, member) = split(members[i]);
        i < self.dimensions.len() && self.dim(dims, i).consolidated_in(hierarchy, member)
    }

    /// The leaves of each member, with their weights, and whether any member
    /// is an aggregate. A member that is not known becomes a leaf.
    pub open spec fn spread(self, dims: Seq<DimensionModel<N>>, members: Seq<Seq<char>>) -> (
        Seq<DimensionModel<N>>,
        Result<(Seq<Seq<(u32, N)>>, bool), Seq<char>>,
    )
        decreases members.len(),
    {
        if members.len() == 0 {
            (dims, Ok((Seq::empty(), false)))
        } else {
            match self.spread(dims, members.drop_last()) {
                (before, Err(e)) => (before, Err(e)),
                (before, Ok((lists, any))) => {
                    let slot = self.dimensions[members.len() - 1] as int;
                    let (hierarchy, member) = split(members.last());
                    let (dim, id) = match before[slot].id_in(hierarchy, member) {
                        Some(id) => (before[slot], id),
                        None => before[slot].leaf_added(member),
                    };
                    let after = before.update(slot, dim);
                    if dim.is_aggregate(id) {
                        let leaves = pairs_of(dim.leaf_weights(hierarchy, member));
                        if leaves.len() == 0 {
                            (
                                after,
                                Err(
                                    "Consolidated member '"@ + members.last()
                                        + "' has no leaf descendants to allocate to."@,
                                ),
                            )
                        } else {
                            (after, Ok((lists.push(leaves), true)))
                        }
                    } else {
                        (after, Ok((lists.push(seq![(id, N::one_spec())]), any)))
                    }
                },
            }
        }
    }

    /// The cube and the dimensions after `value` was spread over the leaves
    /// below the members, and the number of cells that took a share.
    pub open spec fn splashed(
        self,
        dims: Seq<DimensionModel<N>>,
        members: Seq<Seq<char>>,
        value: N,
        mode: SplashMode,
    ) -> (Self, Seq<DimensionModel<N>>, Result<int, Seq<char>>) {
        if self.dimensions.len() != members.len() {
            (
                self,
                dims,
                Err(
                    "Expected "@ + decimal(self.dimensions.len()) + " coordinate(s), got "@
                        + decimal(members.len()) + "."@,
                ),
            )
        } else {
            match self.spread(dims, members) {
                (after, Err(e)) => (self, after, Err(e)),
                (after, Ok((lists, false))) => (
                    self.written(
                        Seq::new(lists.len(), |i: int| lists[i][0].0),
                        CellModel::Numeric(value),
                    ),
                    after,
                    Ok(1),
                ),
                (after, Ok((lists, true))) => {
                    let parts = product(lists);
                    let total = total_square(parts);
                    if total.is_zero_spec() {
                        (self, after, Err("Cannot allocate: total absolute weight is zero."@))
                    } else {
                        (
                            CubeModel {
                                cells: allocated(
                                    self.cells,
                                    parts,
                                    value.over_spec(total),
                                    mode,
                                ),
                                cache: Map::empty(),
                                ..self
                            },
                            after,
                            Ok(parts.len() as int),
                        )
                    }
                },
            }
        }
    }

    /// The leaves below each member with their weights.
    pub open spec fn resolutions(self, dims: Seq<DimensionModel<N>>, members: Seq<Seq<char>>) -> Seq<
        Seq<(u32, N)>,
    > {
        Seq::new(
            members.len(),
            |i: int|
                pairs_of(self.dim(dims, i).leaf_weights(split(members[i]).0, split(members[i]).1)),
        )
    }

    /// What the cells add up to at the crossing of the members.
    pub open spec fn computed(self, dims: Seq<DimensionModel<N>>, members: Seq<Seq<char>>) -> N {
        summed(self.cells, self.resolutions(dims, members), Seq::empty(), N::one_spec())
    }

    /// The cube after the question, and the answer: nought for members that
    /// are not known in the hierarchies they are asked for in, what was answered
    /// before, or else the sum, which is kept.
    pub open spec fn consolidated(self, dims: Seq<DimensionModel<N>>, members: Seq<Seq<char>>) -> (
        Self,
        N,
    ) {
        match self.exact_ids(dims, members) {
            None => (self, N::zero_spec()),
            Some(ids) => if self.cache.contains_key(ids) {
                (self, self.cache[ids])
            } else {
                let total = self.computed(dims, members);
                (CubeModel { cache: self.cache.insert(ids, total), ..self }, total)
            },
        }
    }

    /// The ids of the members in the hierarchies that are named.
    pub open spec fn exact_ids(self, dims: Seq<DimensionModel<N>>, members: Seq<Seq<char>>) -> Option<
        Seq<u32>,
    >
        decreases members.len(),
    {
        if members.len() == 0 {
            Some(Seq::empty())
        } else {
            let (hierarchy, member) = split(members.last());
            match (
                self.exact_ids(dims, members.drop_last()),
                self.dim(dims, members.len() - 1).id_in(hierarchy, member),
            ) {
                (Some(ids), Some(id)) => Some(ids.push(id)),
                _ => None,
            }
        }
    }

    /// The cell at the members.
    pub open spec fn cell_at(self, dims: Seq<DimensionModel<N>>, members: Seq<Seq<char>>) -> Option<
        CellModel<N>,
    > {
        if members.len() != self.dimensions.len() {
            None
        } else {
            match self.exact_ids(dims, members) {
                Some(ids) => if self.cells.contains_key(ids) {
                    Some(self.cells[ids])
                } else {
                    None
                },
                None => None,
            }
        }
    }
}

// ---------------------------------------------------------------------------
// The operations
// ---------------------------------------------------------------------------

/// Forms the cells at the crossings of the leaves of each dimension, with the
/// products of their weights.
fn build_leaf_product<N: Number>(lists: &Vec<Vec<(u32, N)>>) -> (r: Vec<(Vec<u32>, N)>)
    ensures
        parts_of(r@) == product(lists_of(lists@)),
{
    let ghost all = lists_of(lists@);
    let mut cells: Vec<(Vec<u32>, N)> = Vec::new();
    cells.push((Vec::new(), N::one()));
    let mut i: usize = 0;
    assert(parts_of(cells@) =~= product(all.take(0)));
    while i < lists.len()
        invariant
            i <= lists@.len(),
            all == lists_of(lists@),
            parts_of(cells@) == product(all.take(i as int)),
        decreases lists@.len() - i,
    {
        assert(all.take(i as int + 1).drop_last() =~= all.take(i as int));
        cells = cross_with(&cells, &lists[i]);
        i += 1;
    }
    assert(all.take(i as int) =~= all);
    cells
}

fn cross_with<N: Number>(cells: &Vec<(Vec<u32>, N)>, leaves: &Vec<(u32, N)>) -> (r: Vec<
    (Vec<u32>, N),
>)
    ensures
        parts_of(r@) == crossed(parts_of(cells@), leaves@),
{
    let ghost all = parts_of(cells@);
    let mut out: Vec<(Vec<u32>, N)> = Vec::new();
    let mut i: usize = 0;
    assert(parts_of(out@) =~= crossed(all.take(0), leaves@));
    while i < cells.len()
        invariant
            i <= cells@.len(),
            all == parts_of(cells@),
            parts_of(out@) == crossed(all.take(i as int), leaves@),
        decreases cells@.len() - i,
    {
        assert(all.take(i as int + 1).drop_last() =~= all.take(i as int));
        let ghost before = parts_of(out@);
        let ghost (coords, weight) = all[i as int];
        let ghost more = Seq::new(
            leaves@.len(),
            |k: int| (coords.push(leaves@[k].0), weight.times_spec(leaves@[k].1)),
        );
        let mut j: usize = 0;
        assert(before + more.take(0) =~= before);
        while j < leaves.len()
            invariant
                i < cells@.len(),
                j <= leaves@.len(),
                (coords, weight) == (cells@[i as int].0@, cells@[i as int].1),
                more == Seq::new(
                    leaves@.len(),
                    |k: int| (coords.push(leaves@[k].0), weight.times_spec(leaves@[k].1)),
                ),
                parts_of(out@) == before + more.take(j as int),
            decreases leaves@.len() - j,
        {
            let ghost sofar = parts_of(out@);
            let mut path = copy_ids(cells[i].0.as_slice());
            path.push(leaves[j].0);
            out.push((path, cells[i].1.times(leaves[j].1)));
            assert(parts_of(out@) =~= sofar.push(more[j as int]));
            assert(parts_of(out@) =~= before + more.take(j as int + 1));
            j += 1;
        }
        assert(more.take(j as int) =~= more);
        i += 1;
    }
    assert(all.take(i as int) =~= all);
    out
}

/// Cells with their weights.
pub open spec fn parts_of<N>(cells: Seq<(Vec<u32>, N)>) -> Seq<(Seq<u32>, N)> {
    Seq::new(cells.len(), |i: int| (cells[i].0@, cells[i].1))
}

/// Leaves with their weights, of each dimension.
pub open spec fn lists_of<N>(lists: Seq<Vec<(u32, N)>>) -> Seq<Seq<(u32, N)>> {
    Seq::new(lists.len(), |i: int| lists[i]@)
}

impl<N: Number> Cube<N> {
    pub fn new(
        name: &str,
        dimension_names: Vec<String>,
        dimensions: Vec<usize>,
        measure_dimension: Option<String>,
        is_aggregating: bool,
    ) -> (r: Self)
        ensures
            r@ == CubeModel::<N>::fresh(
                name@,
                texts(dimension_names@),
                dimensions@,
                optional(measure_dimension),
                is_aggregating,
            ),
    {
        let count = dimension_names.len();
        let r = Cube {
            name: name.to_string(),
            dimension_names,
            measure_dimension,
            is_aggregating,
            dimensions,
            store: SparseStore::new(count),
            query_cache: SparseStore::new(count),
        };
        assert(r@.cells =~= Map::<Seq<u32>, CellModel<N>>::empty());
        r
    }

    /// Says where the cube's dimensions are.
    pub fn attach_dimensions(&mut self, dimensions: Vec<usize>)
        ensures
            final(self)@ == (CubeModel { dimensions: dimensions@, ..old(self)@ }),
    {
        self.dimensions = dimensions;
    }

    /// Stores a cell at the members, which become leaves where they are not.
    pub fn write(&mut self, dims: &mut Vec<Dimension<N>>, members: &[&str], value: CellValue<N>)
        requires
            old(self)@.fits(old(dims)@.len()),
            members@.len() <= old(self)@.dimensions.len(),
        ensures
            final(self)@ == old(self)@.written(
                old(self)@.leaves_added(dims_of(old(dims)@), words(members@)).1,
                value@,
            ),
            dims_of(final(dims)@) == old(self)@.leaves_added(
                dims_of(old(dims)@),
                words(members@),
            ).0,
            final(dims)@.len() == old(dims)@.len(),
    {
        let ghost was = dims_of(dims@);
        let ghost all = words(members@);
        let mut coords: Vec<u32> = Vec::new();
        let mut i: usize = 0;
        while i < members.len()
            invariant
                i <= members@.len(),
                *self == *old(self),
                self@.fits(dims@.len()),
                members@.len() <= self@.dimensions.len(),
                all == words(members@),
                dims@.len() == old(dims)@.len(),
                (dims_of(dims@), coords@) == self@.leaves_added(was, all.take(i as int)),
            decreases members@.len() - i,
        {
            assert(all.take(i as int + 1).drop_last() =~= all.take(i as int));
            let ghost before = dims_of(dims@);
            let slot = self.dimensions[i];
            assert(slot < dims@.len());
            let id = dims[slot].add_leaf(members[i]);
            assert(dims_of(dims@) =~= before.update(
                slot as int,
                before[slot as int].leaf_added(all[i as int]).0,
            ));
            coords.push(id);
            i += 1;
        }
        assert(all.take(i as int) =~= all);
        self.store.write(coords.as_slice(), value);
        self.clear_cache();
    }

    /// True when a coordinate names an aggregate.
    pub fn has_consolidated_coordinate(&self, dims: &Vec<Dimension<N>>, members: &[&str]) -> (r:
        bool)
        requires
            self@.fits(dims@.len()),
        ensures
            r == exists|i: int|
                0 <= i < members@.len() && #[trigger] self@.names_aggregate(
                    dims_of(dims@),
                    words(members@),
                    i,
                ),
    {
        let mut i: usize = 0;
        while i < members.len()
            invariant
                i <= members@.len(),
                self@.fits(dims@.len()),
                forall|k: int|
                    0 <= k < i ==> !#[trigger] self@.names_aggregate(
                        dims_of(dims@),
                        words(members@),
                        k,
                    ),
            decreases members@.len() - i,
        {
            let (hier, member) = split_qualified(members[i]);
            if i < self.dimensions.len() {
                let slot = self.dimensions[i];
                assert(slot < dims@.len());
                if dims[slot].is_consolidated_in(word(&hier), member.as_str()) {
                    assert(self@.names_aggregate(dims_of(dims@), words(members@), i as int));
                    return true;
                }
            }
            i += 1;
        }
        false
    }

    /// Stores a number at the members. Where one of them is an aggregate, the
    /// number is spread over the leaves below, each taking the number times its
    /// weight over the sum of the squares of all weights, so that the cells add up
    /// to the number again. Where arithmetic rounds, the squares of very small
    /// weights may be nought, and the number is refused as without any weight.
    /// Returns how many cells were stored.
    pub fn write_splashed(
        &mut self,
        dims: &mut Vec<Dimension<N>>,
        members: &[&str],
        value: N,
        mode: SplashMode,
    ) -> (r: Result<usize, String>)
        requires
            old(self)@.fits(old(dims)@.len()),
        ensures
            ({
                let (cube, after, outcome) = old(self)@.splashed(
                    dims_of(old(dims)@),
                    words(members@),
                    value,
                    mode,
                );
                &&& final(self)@ == cube
                &&& dims_of(final(dims)@) == after
                &&& match r {
                    Ok(n) => outcome == Ok::<int, Seq<char>>(n as int),
                    Err(e) => outcome == Err::<int, Seq<char>>(e@),
                }
            }),
            final(dims)@.len() == old(dims)@.len(),
    {
        if self.dimensions.len() != members.len() {
            return Err(
                cat5(
                    "Expected ",
                    decimal_text(self.dimensions.len() as u128).as_str(),
                    " coordinate(s), got ",
                    decimal_text(members.len() as u128).as_str(),
                    ".",
                ),
            );
        }
        let (lists, any) = match self.spread_over(dims, members) {
            Ok(spread) => spread,
            Err(e) => {
                return Err(e);
            },
        };
        if !any {
            let ghost firsts = Seq::new(lists@.len(), |i: int| lists_of(lists@)[i][0].0);
            let mut coords: Vec<u32> = Vec::new();
            let mut i: usize = 0;
            while i < lists.len()
                invariant
                    i <= lists@.len(),
                    firsts == Seq::new(lists@.len(), |i: int| lists_of(lists@)[i][0].0),
                    forall|k: int| 0 <= k < lists@.len() ==> (#[trigger] lists@[k])@.len() > 0,
                    coords@ == firsts.take(i as int),
                decreases lists@.len() - i,
            {
                assert(lists@[i as int]@.len() > 0);
                coords.push(lists[i][0].0);
                assert(coords@ =~= firsts.take(i as int + 1));
                i += 1;
            }
            assert(firsts.take(i as int) =~= firsts);
            self.store.write(coords.as_slice(), CellValue::Numeric(value));
            self.clear_cache();
            return Ok(1);
        }
        let cells = build_leaf_product(&lists);
        let ghost parts = parts_of(cells@);
        let mut total = N::zero();
        let mut i: usize = 0;
        assert(parts.take(0) =~= Seq::<(Seq<u32>, N)>::empty());
        while i < cells.len()
            invariant
                i <= cells@.len(),
                parts == parts_of(cells@),
                total == total_square(parts.take(i as int)),
            decreases cells@.len() - i,
        {
            assert(parts.take(i as int + 1).drop_last() =~= parts.take(i as int));
            total = total.plus(cells[i].1.times(cells[i].1));
            i += 1;
        }
        assert(parts.take(i as int) =~= parts);
        if total.is_zero() {
            return Err("Cannot allocate: total absolute weight is zero.".to_string());
        }
        let scale = value.over(total);
        let ghost was = self@;
        let mut i: usize = 0;
        assert(parts.take(0) =~= Seq::<(Seq<u32>, N)>::empty());
        while i < cells.len()
            invariant
                i <= cells@.len(),
                parts == parts_of(cells@),
                self@ == (CubeModel {
                    cells: allocated(was.cells, parts.take(i as int), scale, mode),
                    ..was
                }),
            decreases cells@.len() - i,
        {
            assert(parts.take(i as int + 1).drop_last() =~= parts.take(i as int));
            let coords = cells[i].0.as_slice();
            let weight = cells[i].1;
            let share = scale.times(weight);
            let stored = match mode {
                SplashMode::Replace => share,
                SplashMode::Add => {
                    let existing = match self.store.query_exact(coords) {
                        Some(CellValue::Numeric(n)) => *n,
                        _ => N::zero(),
                    };
                    existing.plus(share)
                },
            };
            self.store.write(coords, CellValue::Numeric(stored));
            i += 1;
        }
        assert(parts.take(i as int) =~= parts);
        self.clear_cache();
        Ok(cells.len())
    }

    /// Finds the leaves below each member, with their weights, and whether any
    /// member is an aggregate.
    fn spread_over(&self, dims: &mut Vec<Dimension<N>>, members: &[&str]) -> (r: Result<
        (Vec<Vec<(u32, N)>>, bool),
        String,
    >)
        requires
            self@.fits(old(dims)@.len()),
            members@.len() <= self@.dimensions.len(),
        ensures
            dims_of(final(dims)@) == self@.spread(dims_of(old(dims)@), words(members@)).0,
            final(dims)@.len() == old(dims)@.len(),
            match r {
                Ok((lists, any)) => self@.spread(dims_of(old(dims)@), words(members@)).1 == Ok::<
                    (Seq<Seq<(u32, N)>>, bool),
                    Seq<char>,
                >((lists_of(lists@), any)) && forall|k: int|
                    0 <= k < lists@.len() ==> (#[trigger] lists@[k])@.len() > 0,
                Err(e) => self@.spread(dims_of(old(dims)@), words(members@)).1 == Err::<
                    (Seq<Seq<(u32, N)>>, bool),
                    Seq<char>,
                >(e@),
            },
    {
        let ghost was = dims_of(dims@);
        let ghost all = words(members@);
        let mut lists: Vec<Vec<(u32, N)>> = Vec::new();
        let mut any = false;
        let mut i: usize = 0;
        assert(lists_of(lists@) =~= Seq::<Seq<(u32, N)>>::empty());
        while i < members.len()
            invariant
                i <= members@.len(),
                self@.fits(dims@.len()),
                members@.len() <= self@.dimensions.len(),
                was == dims_of(old(dims)@),
                dims@.len() == old(dims)@.len(),
                all == words(members@),
                forall|k: int| 0 <= k < lists@.len() ==> (#[trigger] lists@[k])@.len() > 0,
                self@.spread(was, all.take(i as int)) == (
                    dims_of(dims@),
                    Ok::<(Seq<Seq<(u32, N)>>, bool), Seq<char>>((lists_of(lists@), any)),
                ),
            decreases members@.len() - i,
        {
            assert(all.take(i as int + 1).drop_last() =~= all.take(i as int));
            let ghost before = dims_of(dims@);
            let ghost done = lists_of(lists@);
            let slot = self.dimensions[i];
            assert(slot < dims@.len());
            let (hier, member) = split_qualified(members[i]);
            let known = dims[slot].get_id_in(word(&hier), member.as_str());
            let id = match known {
                Some(id) => id,
                None => dims[slot].add_leaf(member.as_str()),
            };
            assert(dims_of(dims@) =~= before.update(slot as int, dims@[slot as int]@));
            let aggregate = match dims[slot].member_type(id) {
                Some(kind) => kind == MemberType::Consolidated,
                None => false,
            };
            if aggregate {
                any = true;
                let leaves = pairs(&dims[slot].get_leaf_descendants_in(word(&hier), member.as_str()));
                if leaves.len() == 0 {
                    proof {
                        self@.spread_stays_failed(was, all, i as int + 1);
                    }
                    return Err(
                        cat3(
                            "Consolidated member '",
                            members[i],
                            "' has no leaf descendants to allocate to.",
                        ),
                    );
                }
                let ghost list = leaves@;
                lists.push(leaves);
                assert(lists_of(lists@) =~= done.push(list));
            } else {
                let mut one: Vec<(u32, N)> = Vec::new();
                one.push((id, N::one()));
                assert(one@ =~= seq![(id, N::one_spec())]);
                lists.push(one);
                assert(lists_of(lists@) =~= done.push(seq![(id, N::one_spec())]));
            }
            i += 1;
        }
        assert(all.take(i as int) =~= all);
        Ok((lists, any))
    }

    /// What the cells add up to at the crossing of the members; nought where one
    /// is not known in the hierarchy it is asked for in. The answer is kept
    /// until the cube changes.
    pub fn query_consolidated(&mut self, dims: &Vec<Dimension<N>>, members: &[&str]) -> (r: N)
        requires
            old(self)@.fits(dims@.len()),
            members@.len() <= old(self)@.dimensions.len(),
        ensures
            (final(self)@, r) == old(self)@.consolidated(dims_of(dims@), words(members@)),
    {
        let ghost models = dims_of(dims@);
        let ghost all = words(members@);
        let ghost each = self@.resolutions(models, all);
        let mut ids: Vec<u32> = Vec::new();
        let mut lists: Vec<Vec<(u32, N)>> = Vec::new();
        let mut i: usize = 0;
        assert(lists_of(lists@) =~= each.take(0));
        while i < members.len()
            invariant
                i <= members@.len(),
                *self == *old(self),
                self@.fits(dims@.len()),
                members@.len() <= self@.dimensions.len(),
                models == dims_of(dims@),
                all == words(members@),
                each == self@.resolutions(models, all),
                self@.exact_ids(models, all.take(i as int)) == Some(ids@),
                lists_of(lists@) == each.take(i as int),
            decreases members@.len() - i,
        {
            assert(all.take(i as int + 1).drop_last() =~= all.take(i as int));
            let slot = self.dimensions[i];
            assert(slot < dims@.len());
            let (hier, member) = split_qualified(members[i]);
            let id = match dims[slot].get_id_in(word(&hier), member.as_str()) {
                Some(id) => id,
                None => {
                    proof {
                        self@.exact_ids_stay_unknown(models, all, i as int + 1);
                    }
                    return N::zero();
                },
            };
            ids.push(id);
            let ghost done = lists_of(lists@);
            let leaves = pairs(&dims[slot].get_leaf_descendants_in(word(&hier), member.as_str()));
            let ghost list = leaves@;
            lists.push(leaves);
            assert(list == each[i as int]);
            assert(lists_of(lists@) =~= done.push(list));
            assert(lists_of(lists@) =~= each.take(i as int + 1));
            i += 1;
        }
        assert(all.take(i as int) =~= all);
        assert(each.take(i as int) =~= each);
        match self.query_cache.query_exact(ids.as_slice()) {
            Some(known) => {
                return *known;
            },
            None => {},
        }
        let mut coords: Vec<u32> = Vec::new();
        let total = self.calculate_jit(&lists, &mut coords, N::one());
        self.query_cache.write(ids.as_slice(), total);
        total
    }

    fn calculate_jit(&self, lists: &Vec<Vec<(u32, N)>>, coords: &mut Vec<u32>, weight: N) -> (r: N)
        requires
            old(coords)@.len() <= lists@.len(),
        ensures
            r == summed(self@.cells, lists_of(lists@), old(coords)@, weight),
            final(coords)@ == old(coords)@,
        decreases lists@.len() - old(coords)@.len(),
    {
        let ghost all = lists_of(lists@);
        let ghost here = coords@;
        let depth = coords.len();
        if depth == lists.len() {
            return match self.store.query_exact(coords.as_slice()) {
                Some(CellValue::Numeric(n)) => n.times(weight),
                _ => N::zero(),
            };
        }
        let mut sum = N::zero();
        let mut i: usize = 0;
        while i < lists[depth].len()
            invariant
                here == old(coords)@,
                depth == here.len(),
                depth < lists@.len(),
                coords@ == here,
                all == lists_of(lists@),
                i <= lists@[depth as int]@.len(),
                sum == summed_over(self@.cells, all, here, weight, i as nat),
            decreases lists@[depth as int]@.len() - i,
        {
            let (leaf, share) = lists[depth][i];
            coords.push(leaf);
            let part = self.calculate_jit(lists, coords, weight.times(share));
            coords.pop();
            assert(coords@ =~= here);
            sum = sum.plus(part);
            i += 1;
        }
        sum
    }

    /// The cell at the members.
    pub fn read_cell(&self, dims: &Vec<Dimension<N>>, members: &[&str]) -> (r: Option<&CellValue<N>>)
        requires
            self@.fits(dims@.len()),
        ensures
            match r {
                Some(cell) => self@.cell_at(dims_of(dims@), words(members@)) == Some(cell@),
                None => self@.cell_at(dims_of(dims@), words(members@)) is None,
            },
    {
        if members.len() != self.dimensions.len() {
            return None;
        }
        let ghost models = dims_of(dims@);
        let ghost all = words(members@);
        let mut ids: Vec<u32> = Vec::new();
        let mut i: usize = 0;
        while i < members.len()
            invariant
                i <= members@.len(),
                self@.fits(dims@.len()),
                members@.len() == self@.dimensions.len(),
                models == dims_of(dims@),
                all == words(members@),
                self@.exact_ids(models, all.take(i as int)) == Some(ids@),
            decreases members@.len() - i,
        {
            assert(all.take(i as int + 1).drop_last() =~= all.take(i as int));
            let slot = self.dimensions[i];
            assert(slot < dims@.len());
            let (hier, member) = split_qualified(members[i]);
            match dims[slot].get_id_in(word(&hier), member.as_str()) {
                Some(id) => {
                    ids.push(id);
                },
                None => {
                    proof {
                        self@.exact_ids_stay_unknown(models, all, i as int + 1);
                    }
                    return None;
                },
            }
            i += 1;
        }
        assert(all.take(i as int) =~= all);
        self.store.query_exact(ids.as_slice())
    }

    /// Forgets what was answered before.
    pub fn clear_cache(&mut self)
        ensures
            final(self)@ == (CubeModel { cache: Map::empty(), ..old(self)@ }),
    {
        self.query_cache = SparseStore::new(self.dimensions.len());
    }
}

impl<N: Number> CubeModel<N> {
    proof fn spread_stays_failed(
        self,
        dims: Seq<DimensionModel<N>>,
        members: Seq<Seq<char>>,
        n: int,
    )
        requires
            0 <= n <= members.len(),
            self.spread(dims, members.take(n)).1 is Err,
        ensures
            self.spread(dims, members) == self.spread(dims, members.take(n)),
        decreases members.len() - n,
    {
        if n < members.len() {
            assert(members.take(n + 1).drop_last() =~= members.take(n));
            self.spread_stays_failed(dims, members, n + 1);
        } else {
            assert(members.take(n) =~= members);
        }
    }

    proof fn exact_ids_stay_unknown(
        self,
        dims: Seq<DimensionModel<N>>,
        members: Seq<Seq<char>>,
        n: int,
    )
        requires
            0 <= n <= members.len(),
            self.exact_ids(dims, members.take(n)) is None,
        ensures
            self.exact_ids(dims, members) is None,
        decreases members.len() - n,
    {
        if n < members.len() {
            assert(members.take(n + 1).drop_last() =~= members.take(n));
            self.exact_ids_stay_unknown(dims, members, n + 1);
        } else {
            assert(members.take(n) =~= members);
        }
    }
}

} // verus!
