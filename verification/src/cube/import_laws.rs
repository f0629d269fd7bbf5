//! What is read back of rows that were stored.

use crate::cube::cube::{split, CubeModel};
use crate::cube::import::{imported, records_stay_failed, records_stored};
use crate::cube::laws::is_unqualified;
use crate::cube::node::CellModel;
use crate::dimension::dimension::DimensionModel;
use crate::number::Number;
use crate::storage::name_map::keys;
use crate::text::{lowercase, place_of_is_first};
use vstd::prelude::*;

verus! {

impl<N: Number> DimensionModel<N> {
    /// Two names that differ in more than case have two ids.
    pub proof fn two_names_have_two_ids(
        self,
        hierarchy: Option<Seq<char>>,
        a: Seq<char>,
        b: Seq<char>,
    )
        requires
            self.sound(),
            self.id_in(hierarchy, a) is Some,
            lowercase(a) != lowercase(b),
        ensures
            self.id_in(hierarchy, a) != self.id_in(hierarchy, b),
    {
        let named = lowercase(self.hierarchy_named(hierarchy));
        place_of_is_first(keys(self.hierarchies), named);
        let p = self.place(self.hierarchy_named(hierarchy))->0;
        let h = self.hierarchies[p].1;
        assert(h.sound_over(self.leaf_ids, self.leaf_names, self.next_id));
        if self.id_in(hierarchy, a) == self.id_in(hierarchy, b) {
            h.one_name_each(lowercase(a), lowercase(b));
        }
    }
}

/// The members differ, in more than case, in one of the first `count` names.
pub open spec fn elsewhere(a: Seq<Seq<char>>, b: Seq<Seq<char>>, count: nat) -> bool {
    exists|d: int| 0 <= d < count && lowercase(#[trigger] a[d]) != lowercase(b[d])
}

impl<N: Number> CubeModel<N> {
    /// The members are found in the default hierarchies, under these ids.
    pub open spec fn found_at(
        self,
        dims: Seq<DimensionModel<N>>,
        members: Seq<Seq<char>>,
        coords: Seq<u32>,
    ) -> bool {
        coords.len() == self.dimensions.len() && members.len() >= self.dimensions.len() && forall|
            i: int,
        |
            0 <= i < self.dimensions.len() ==> #[trigger] self.dim(dims, i).id_in(None, members[i])
                == Some(coords[i])
    }

    /// Writing a cell leaves every other in its place and as it is.
    pub proof fn writing_spares_other_cells(
        self,
        dims: Seq<DimensionModel<N>>,
        members: Seq<Seq<char>>,
        cell: CellModel<N>,
        others: Seq<Seq<char>>,
        coords: Seq<u32>,
        more: nat,
    )
        requires
            self.fits(dims.len()),
            members.len() == self.dimensions.len(),
            Self::room_for(dims, members.len() + more),
            self.found_at(dims, others, coords),
            elsewhere(members, others, members.len()),
        ensures
            ({
                let (after, written) = self.leaves_added(dims, members);
                let cube = self.written(written, cell);
                &&& after.len() == dims.len()
                &&& Self::room_for(after, more)
                &&& cube.found_at(after, others, coords)
                &&& cube.cells.contains_key(coords) == self.cells.contains_key(coords)
                &&& cube.cells[coords] == self.cells[coords]
            }),
    {
        let n = members.len() as int;
        let (after, written) = self.leaves_added(dims, members);
        assert(members.take(n) =~= members);
        let d = choose|d: int|
            0 <= d < members.len() && lowercase(#[trigger] members[d]) != lowercase(others[d]);
        self.leaves_added_steps(dims, members, n, more, d, members[d]);
        assert forall|i: int| 0 <= i < self.dimensions.len() implies #[trigger] self.dim(
            after,
            i,
        ).id_in(None, others[i]) == Some(coords[i]) by {
            assert(self.dim(dims, i).id_in(None, others[i]) == Some(coords[i]));
            self.found_members_stay(dims, members, more, n, i, others[i]);
        }
        let cube = self.written(written, cell);
        assert forall|i: int| 0 <= i < cube.dimensions.len() implies #[trigger] cube.dim(
            after,
            i,
        ).id_in(None, others[i]) == Some(coords[i]) by {
            assert(cube.dim(after, i) == self.dim(after, i));
        }
        self.leaves_added_are_found(dims, members, n, d);
        assert(self.dimensions[d] < dims.len());
        assert(after[self.dimensions[d] as int].sound());
        self.dim(after, d).two_names_have_two_ids(None, members[d], others[d]);
        assert(self.dim(after, d).id_in(None, others[d]) == Some(coords[d]));
        assert(written[d] != coords[d]);
    }

    /// A member that is found is found after leaves were made.
    proof fn found_members_stay(
        self,
        dims: Seq<DimensionModel<N>>,
        members: Seq<Seq<char>>,
        more: nat,
        n: int,
        i: int,
        name: Seq<char>,
    )
        requires
            self.fits(dims.len()),
            members.len() <= self.dimensions.len(),
            Self::room_for(dims, members.len() + more),
            0 <= n <= members.len(),
            0 <= i < self.dimensions.len(),
            self.dim(dims, i).id_in(None, name) is Some,
        ensures
            self.dim(self.leaves_added(dims, members.take(n)).0, i).id_in(None, name) == self.dim(
                dims,
                i,
            ).id_in(None, name),
        decreases n,
    {
        let upto = members.take(n);
        if n > 0 {
            assert(upto.drop_last() =~= members.take(n - 1));
            self.found_members_stay(dims, members, more, n - 1, i, name);
            self.leaves_added_steps(dims, members, n - 1, more, i, name);
            let before = self.leaves_added(dims, members.take(n - 1)).0;
            let slot = self.dimensions[n - 1] as int;
            assert(self.dimensions[n - 1] < dims.len());
            assert(self.dimensions[i] < dims.len());
            assert(before[slot].sound());
            before[slot].adding_a_leaf_hides_nothing(upto.last(), None, name);
        } else {
            assert(upto =~= Seq::<Seq<char>>::empty());
        }
    }
}

// ---------------------------------------------------------------------------
// Imports
// ---------------------------------------------------------------------------

/// The record is stored: it has a member for each dimension and a value.
pub open spec fn is_full(record: Result<Seq<Seq<char>>, Seq<char>>, count: nat) -> bool {
    record matches Ok(fields) && fields.len() > count
}

/// None of the records from `start` to `end` is stored at the members.
pub open spec fn spared(
    records: Seq<Result<Seq<Seq<char>>, Seq<char>>>,
    start: int,
    end: int,
    members: Seq<Seq<char>>,
    count: nat,
) -> bool {
    forall|j: int|
        start <= j < end && is_full(#[trigger] records[j], count) ==> elsewhere(
            records[j]->Ok_0,
            members,
            count,
        )
}

/// Storing records keeps the shape of the cube, takes no more ids than there are
/// members in the records, and leaves a cell alone that none of them is stored at.
proof fn records_spare_a_cell<N: Number>(
    cube: CubeModel<N>,
    dims: Seq<DimensionModel<N>>,
    records: Seq<Result<Seq<Seq<char>>, Seq<char>>>,
    start: int,
    n: int,
    members: Seq<Seq<char>>,
    coords: Seq<u32>,
    more: nat,
)
    requires
        cube.fits(dims.len()),
        0 <= start <= n <= records.len(),
        records_stored(cube, dims, records, n).2 is Ok,
        records_stored(cube, dims, records, start).0.found_at(
            records_stored(cube, dims, records, start).1,
            members,
            coords,
        ),
        CubeModel::<N>::room_for(dims, n as nat * cube.dimensions.len() + more),
        spared(records, start, n, members, cube.dimensions.len()),
    ensures
        ({
            let was = records_stored(cube, dims, records, start).0;
            let (after, dims_after, _) = records_stored(cube, dims, records, n);
            &&& after.found_at(dims_after, members, coords)
            &&& after.cells.contains_key(coords) == was.cells.contains_key(coords)
            &&& after.cells[coords] == was.cells[coords]
        }),
    decreases n - start,
{
    if start < n {
        let count = cube.dimensions.len();
        let m = n - 1;
        assert(n as nat * count + more == m as nat * count + (count + more)) by (nonlinear_arith)
            requires
                m == n - 1,
                n >= 1,
        ;
        if records_stored(cube, dims, records, m).2 is Err {
            records_stay_failed(cube, dims, records, m, n);
        }
        records_spare_a_cell(cube, dims, records, start, m, members, coords, count + more);
        records_keep_room(cube, dims, records, m, count + more);
        let (before, dims_before, _) = records_stored(cube, dims, records, m);
        let fields = records[m]->Ok_0;
        if fields.len() > count {
            assert(is_full(records[m], count));
            let places = fields.take(count as int);
            let d = choose|d: int|
                0 <= d < count && lowercase(#[trigger] fields[d]) != lowercase(members[d]);
            assert(lowercase(places[d]) != lowercase(members[d]));
            before.writing_spares_other_cells(
                dims_before,
                places,
                CellModel::read(fields[count as int], fields[count as int]),
                members,
                coords,
                more,
            );
        }
    }
}

/// Storing records keeps the shape of the cube and its dimensions sound.
proof fn records_keep_room<N: Number>(
    cube: CubeModel<N>,
    dims: Seq<DimensionModel<N>>,
    records: Seq<Result<Seq<Seq<char>>, Seq<char>>>,
    n: int,
    more: nat,
)
    requires
        cube.fits(dims.len()),
        0 <= n <= records.len(),
        CubeModel::<N>::room_for(dims, n as nat * cube.dimensions.len() + more),
    ensures
        ({
            let (after, dims_after, _) = records_stored(cube, dims, records, n);
            &&& after.dimensions == cube.dimensions
            &&& after.dimension_names == cube.dimension_names
            &&& dims_after.len() == dims.len()
            &&& CubeModel::<N>::room_for(dims_after, more)
        }),
    decreases n,
{
    let count = cube.dimensions.len();
    if n == 0 {
        assert(0nat * count == 0) by (nonlinear_arith);
    } else {
        let m = n - 1;
        assert(n as nat * count + more == m as nat * count + (count + more)) by (nonlinear_arith)
            requires
                m == n - 1,
                n >= 1,
        ;
        records_keep_room(cube, dims, records, m, count + more);
        let (before, dims_before, done) = records_stored(cube, dims, records, m);
        if done is Ok && is_full(records[m], count) {
            let fields = records[m]->Ok_0;
            let places = fields.take(count as int);
            assert(places.take(count as int) =~= places);
            if count > 0 {
                before.leaves_added_steps(
                    dims_before,
                    places,
                    count as int,
                    more,
                    0,
                    places[0],
                );
            } else {
                assert(CubeModel::<N>::room_for(dims_before, more));
            }
        } else {
            assert forall|d: int| 0 <= d < dims_before.len() implies (
            #[trigger] dims_before[d]).sound() && dims_before[d].next_id + more < u32::MAX by {}
        }
    }
}

/// After an import, the cell at the members of a record holds the value of the last
/// record that was stored there, whatever it held before.
pub proof fn imported_record_is_read<N: Number>(
    cube: CubeModel<N>,
    dims: Seq<DimensionModel<N>>,
    records: Seq<Result<Seq<Seq<char>>, Seq<char>>>,
    k: int,
)
    requires
        cube.fits(dims.len()),
        CubeModel::<N>::room_for(dims, records.len() * cube.dimensions.len()),
        imported(cube, dims, records).2 is Ok,
        0 <= k < records.len(),
        is_full(records[k], cube.dimensions.len()),
        forall|i: int|
            0 <= i < cube.dimensions.len() ==> is_unqualified(#[trigger] records[k]->Ok_0[i]),
        spared(
            records,
            k + 1,
            records.len() as int,
            records[k]->Ok_0,
            cube.dimensions.len(),
        ),
    ensures
        ({
            let (after, dims_after, _) = imported(cube, dims, records);
            let count = cube.dimensions.len() as int;
            let fields = records[k]->Ok_0;
            after.cell_at(dims_after, fields.take(count)) == Some(
                CellModel::<N>::read(fields[count], fields[count]),
            )
        }),
{
    let count = cube.dimensions.len();
    let end = records.len() as int;
    let fields = records[k]->Ok_0;
    let members = fields.take(count as int);
    assert(end as nat * count == k as nat * count + (count + (end - k - 1) as nat * count))
        by (nonlinear_arith)
        requires
            0 <= k < end,
    ;
    assert(end as nat * count == (k + 1) as nat * count + (end - k - 1) as nat * count)
        by (nonlinear_arith)
        requires
            0 <= k < end,
    ;
    if records_stored(cube, dims, records, k).2 is Err {
        records_stay_failed(cube, dims, records, k, end);
    }
    records_keep_room(cube, dims, records, k, count + (end - k - 1) as nat * count);
    let (before, dims_before, _) = records_stored(cube, dims, records, k);
    let value = CellModel::<N>::read(fields[count as int], fields[count as int]);
    let (now, coords) = before.leaves_added(dims_before, members);
    let written = before.written(coords, value);
    assert(CubeModel::<N>::room_for(dims_before, members.len()));
    assert(members.take(count as int) =~= members);
    if count > 0 {
        before.leaves_added_steps(dims_before, members, count as int, 0, 0, members[0]);
    }
    assert forall|i: int| 0 <= i < written.dimensions.len() implies #[trigger] written.dim(
        now,
        i,
    ).id_in(None, fields[i]) == Some(coords[i]) by {
        before.leaves_added_are_found(dims_before, members, count as int, i);
        assert(written.dim(now, i) == before.dim(now, i));
    }
    assert(written.found_at(now, fields, coords));
    records_spare_a_cell(cube, dims, records, k + 1, end, fields, coords, 0);
    let (after, dims_after, _) = imported(cube, dims, records);
    records_keep_room(cube, dims, records, end, 0);
    assert forall|i: int| 0 <= i < members.len() implies after.dim(dims_after, i).id_in(
        split(#[trigger] members[i]).0,
        split(members[i]).1,
    ) == Some(coords[i]) by {
        assert(is_unqualified(fields[i]));
        assert(after.dim(dims_after, i).id_in(None, fields[i]) == Some(coords[i]));
    }
    after.exact_ids_of(dims_after, members, coords, count as int);
    assert(coords.take(count as int) =~= coords);
}

/// An import leaves every cell as it is that none of its records is stored at.
pub proof fn import_spares_other_cells<N: Number>(
    cube: CubeModel<N>,
    dims: Seq<DimensionModel<N>>,
    records: Seq<Result<Seq<Seq<char>>, Seq<char>>>,
    members: Seq<Seq<char>>,
)
    requires
        cube.fits(dims.len()),
        CubeModel::<N>::room_for(dims, records.len() * cube.dimensions.len()),
        imported(cube, dims, records).2 is Ok,
        cube.cell_at(dims, members) is Some,
        forall|i: int| 0 <= i < members.len() ==> is_unqualified(#[trigger] members[i]),
        spared(records, 0, records.len() as int, members, cube.dimensions.len()),
    ensures
        ({
            let (after, dims_after, _) = imported(cube, dims, records);
            after.cell_at(dims_after, members) == cube.cell_at(dims, members)
        }),
{
    let count = cube.dimensions.len();
    let end = records.len() as int;
    let coords = cube.exact_ids(dims, members)->0;
    assert(members.take(count as int) =~= members);
    cube.exact_ids_are_found(dims, members, count as int);
    assert forall|i: int| 0 <= i < cube.dimensions.len() implies #[trigger] cube.dim(dims, i).id_in(
        None,
        members[i],
    ) == Some(coords[i]) by {
        assert(is_unqualified(members[i]));
    }
    assert(cube.found_at(dims, members, coords));
    records_spare_a_cell(cube, dims, records, 0, end, members, coords, 0);
    let (after, dims_after, _) = imported(cube, dims, records);
    records_keep_room(cube, dims, records, end, 0);
    assert forall|i: int| 0 <= i < members.len() implies after.dim(dims_after, i).id_in(
        split(#[trigger] members[i]).0,
        split(members[i]).1,
    ) == Some(coords[i]) by {
        assert(is_unqualified(members[i]));
        assert(after.dim(dims_after, i).id_in(None, members[i]) == Some(coords[i]));
    }
    after.exact_ids_of(dims_after, members, coords, count as int);
    assert(coords.take(count as int) =~= coords);
}

impl<N: Number> CubeModel<N> {
    /// The ids of members are those found in the hierarchies they are asked for in.
    pub proof fn exact_ids_are_found(
        self,
        dims: Seq<DimensionModel<N>>,
        members: Seq<Seq<char>>,
        n: int,
    )
        requires
            0 <= n <= members.len(),
            self.exact_ids(dims, members.take(n)) is Some,
        ensures
            self.exact_ids(dims, members.take(n))->0.len() == n,
            forall|i: int|
                0 <= i < n ==> self.dim(dims, i).id_in(
                    split(#[trigger] members[i]).0,
                    split(members[i]).1,
                ) == Some(self.exact_ids(dims, members.take(n))->0[i]),
        decreases n,
    {
        if n > 0 {
            assert(members.take(n).drop_last() =~= members.take(n - 1));
            self.exact_ids_are_found(dims, members, n - 1);
        }
    }
}

/// Every record of an import is stored or left out, and only those that are too short
/// are left out.
pub proof fn every_record_is_counted<N: Number>(
    cube: CubeModel<N>,
    dims: Seq<DimensionModel<N>>,
    records: Seq<Result<Seq<Seq<char>>, Seq<char>>>,
    n: int,
)
    requires
        0 <= n <= records.len(),
    ensures
        records_stored(cube, dims, records, n).0.dimensions == cube.dimensions,
        records_stored(cube, dims, records, n).2 is Ok == (forall|j: int|
            0 <= j < n ==> (#[trigger] records[j]) is Ok),
        records_stored(cube, dims, records, n).2 matches Ok(done) ==> {
            &&& done.rows + done.skipped == n
            &&& done.rows == records.take(n).filter(
                |record: Result<Seq<Seq<char>>, Seq<char>>|
                    is_full(record, cube.dimensions.len()),
            ).len()
        },
    decreases n,
{
    let full = |record: Result<Seq<Seq<char>>, Seq<char>>|
        is_full(record, cube.dimensions.len());
    reveal(Seq::filter);
    if n > 0 {
        every_record_is_counted(cube, dims, records, n - 1);
        assert(records.take(n).drop_last() =~= records.take(n - 1));
        assert(records.take(n).last() == records[n - 1]);
    }
}

} // verus!
