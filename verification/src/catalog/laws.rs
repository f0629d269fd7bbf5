//! What holds of a database, whatever is done to it.

use crate::catalog::catalog::{attached, dim_made, dim_names, dims_made, owner_of, CatalogModel};
use crate::catalog::persist::{frame_then_unframe, framed, unframed};
use crate::cube::cube::{split, CubeModel};
use crate::dimension::dimension::DimensionModel;
use crate::dimension::hierarchy::{scaled, HierarchyModel};
use crate::number::Number;
use crate::storage::name_map::{distinct, keys, lookup_after_put, put, put_keeps_distinct};
use crate::text::{
    case_makes_no_difference, is_ascii_text, lowercase, place_but_case, place_of, place_of_is_first,
    same_but_case,
};
use vstd::prelude::*;

verus! {

// ---------------------------------------------------------------------------
// Deleting
// ---------------------------------------------------------------------------

impl<N: Number> CatalogModel<N> {
    /// Deleting a member takes its cells out of every cube that has the
    /// dimension, and no others.
    pub proof fn deleting_a_member_purges_its_cells(
        self,
        dimension: Seq<char>,
        member: Seq<char>,
        k: int,
        path: Seq<u32>,
    )
        requires
            self.member_deleted(dimension, member).1 is Ok,
            0 <= k < self.cubes.len(),
        ensures
            ({
                let dim = self.dims[self.dim_place(dimension)->0];
                let ids = dim.member_deleted(member).1->Ok_0;
                let before = self.cubes[k].1;
                let after = self.member_deleted(dimension, member).0.cubes[k].1;
                let gone = exists|d: int|
                    0 <= d < before.dimension_names.len() && d < path.len() && ids.contains(path[d])
                        && same_but_case(#[trigger] before.dimension_names[d], dim.name);
                &&& after.cells.contains_key(path) == (before.cells.contains_key(path) && !gone)
                &&& after.cells.contains_key(path) ==> after.cells[path] == before.cells[path]
            }),
    {
    }
}

// ---------------------------------------------------------------------------
// Names of hierarchies
// ---------------------------------------------------------------------------

/// No hierarchy name is in use in two dimensions.
pub open spec fn hierarchies_unique<N: Number>(dims: Seq<DimensionModel<N>>) -> bool {
    forall|i: int, j: int, name: Seq<char>|
        0 <= i < j < dims.len() && #[trigger] dims[i].hierarchy(name) is Some
            ==> #[trigger] dims[j].hierarchy(name) is None
}

pub proof fn owner_knows<N: Number>(dims: Seq<DimensionModel<N>>, name: Seq<char>)
    ensures
        match owner_of(dims, name) {
            Some(i) => 0 <= i < dims.len() && dims[i].hierarchy(name) is Some,
            None => forall|i: int|
                0 <= i < dims.len() ==> (#[trigger] dims[i]).hierarchy(name) is None,
        },
    decreases dims.len(),
{
    if dims.len() > 0 {
        owner_knows(dims.drop_last(), name);
        assert forall|i: int| 0 <= i < dims.len() - 1 implies dims.drop_last()[i] == dims[i] by {}
        if owner_of(dims, name) is None {
            assert forall|i: int| 0 <= i < dims.len() implies (#[trigger] dims[i]).hierarchy(
                name,
            ) is None by {
                if i < dims.len() - 1 {
                    assert(dims.drop_last()[i].hierarchy(name) is None);
                }
            }
        }
    }
}

/// A dimension that is found is there.
proof fn found_at<N: Number>(dims: Seq<DimensionModel<N>>, name: Seq<char>)
    ensures
        (CatalogModel { dims, cubes: Seq::empty() }).dim_place(name) matches Some(i) ==> 0 <= i
            < dims.len(),
{
    place_of_is_first(dim_names(dims), name);
    place_but_case_is_one(dim_names(dims), name);
}

proof fn fresh_has_its_own_hierarchy<N: Number>(dimension: Seq<char>, name: Seq<char>)
    ensures
        DimensionModel::<N>::fresh(dimension).hierarchy(name) is Some == (lowercase(dimension)
            == lowercase(name)),
{
    let dim = DimensionModel::<N>::fresh(dimension);
    place_of_is_first(keys(dim.hierarchies), lowercase(name));
    assert(keys(dim.hierarchies)[0] == lowercase(dimension));
}

/// A dimension whose name no hierarchy has keeps the names of hierarchies unique.
proof fn new_dimension_stays_unique<N: Number>(dims: Seq<DimensionModel<N>>, dimension: Seq<char>)
    requires
        hierarchies_unique(dims),
        place_of(dim_names(dims), dimension) is Some || owner_of(dims, dimension) is None,
    ensures
        hierarchies_unique(dim_made(dims, dimension).0),
{
    let made = dim_made(dims, dimension).0;
    owner_knows(dims, dimension);
    if place_of(dim_names(dims), dimension) is None {
        assert forall|a: int, b: int, name: Seq<char>|
            0 <= a < b < made.len() && #[trigger] made[a].hierarchy(
                name,
            ) is Some implies #[trigger] made[b].hierarchy(name) is None by {
            assert(made[a] == dims[a]);
            if b < dims.len() {
                assert(made[b] == dims[b]);
            } else {
                fresh_has_its_own_hierarchy::<N>(dimension, name);
                assert(dims[a].hierarchy(dimension) is None);
            }
        }
    }
}

impl<N: Number> CatalogModel<N> {
    /// Creating a hierarchy keeps the names of hierarchies unique in the
    /// database.
    pub proof fn hierarchy_names_stay_unique(self, dimension: Seq<char>, hierarchy: Seq<char>)
        requires
            hierarchies_unique(self.dims),
        ensures
            hierarchies_unique(self.hierarchy_created(dimension, hierarchy).0.dims),
    {
        let (made, place) = dim_made(self.dims, dimension);
        place_of_is_first(dim_names(self.dims), dimension);
        owner_knows(self.dims, dimension);
        match self.dim_place(dimension) {
            Some(i) => {
                found_at(self.dims, dimension);
                self.new_hierarchy_stays_unique(i, hierarchy);
            },
            None => {
                if owner_of(self.dims, dimension) is None {
                    new_dimension_stays_unique(self.dims, dimension);
                    (CatalogModel { dims: made, ..self }).new_hierarchy_stays_unique(
                        place,
                        hierarchy,
                    );
                }
            },
        }
    }

    /// So does making dimensions whose names no hierarchy of another dimension
    /// has.
    pub proof fn new_dimensions_stay_unique(self, names: Seq<Seq<char>>)
        requires
            hierarchies_unique(self.dims),
            forall|i: int|
                0 <= i < names.len() ==> place_of(
                    dim_names(dims_made(self.dims, names.take(i)).0),
                    #[trigger] names[i],
                ) is Some || owner_of(dims_made(self.dims, names.take(i)).0, names[i]) is None,
        ensures
            hierarchies_unique(dims_made(self.dims, names).0),
        decreases names.len(),
    {
        if names.len() > 0 {
            let rest = names.drop_last();
            let n = names.len() - 1;
            assert(names.take(n) =~= rest);
            assert forall|i: int| 0 <= i < rest.len() implies place_of(
                dim_names(dims_made(self.dims, rest.take(i)).0),
                #[trigger] rest[i],
            ) is Some || owner_of(dims_made(self.dims, rest.take(i)).0, rest[i]) is None by {
                assert(rest.take(i) =~= names.take(i));
                assert(rest[i] == names[i]);
            }
            self.new_dimensions_stay_unique(rest);
            assert(names[n] == names.last());
            new_dimension_stays_unique(dims_made(self.dims, rest).0, names.last());
        }
    }

    proof fn new_hierarchy_stays_unique(self, i: int, hierarchy: Seq<char>)
        requires
            hierarchies_unique(self.dims),
            0 <= i < self.dims.len(),
        ensures
            hierarchies_unique(self.hierarchy_created_at(i, hierarchy).0.dims),
    {
        let dims = self.dims;
        owner_knows(dims, hierarchy);
        let after = self.hierarchy_created_at(i, hierarchy).0;
        if self.hierarchy_created_at(i, hierarchy).1 is Ok {
            let new = dims[i].hierarchy_created(hierarchy).0;
            assert(dims[i].hierarchy(hierarchy) is None);
            assert(owner_of(dims, hierarchy) is None) by {
                if owner_of(dims, hierarchy) is Some {
                    let o = owner_of(dims, hierarchy)->0;
                    assert(dims[o].hierarchy(hierarchy) is Some);
                    assert(o != i);
                }
            }
            assert forall|a: int, b: int, name: Seq<char>|
                0 <= a < b < after.dims.len() && #[trigger] after.dims[a].hierarchy(
                    name,
                ) is Some implies #[trigger] after.dims[b].hierarchy(name) is None by {
                let key = lowercase(hierarchy);
                let added = new.hierarchies.last().1;
                place_of_is_first(keys(dims[i].hierarchies), key);
                assert(new.hierarchies == put(dims[i].hierarchies, key, added));
                lookup_after_put(dims[i].hierarchies, key, added, lowercase(name));
                if lowercase(name) == key {
                    assert(dims[a].hierarchy(name) == dims[a].hierarchy(hierarchy));
                    assert(dims[b].hierarchy(name) == dims[b].hierarchy(hierarchy));
                    assert(dims[a].hierarchy(hierarchy) is None);
                    assert(dims[b].hierarchy(hierarchy) is None);
                } else {
                    assert(new.hierarchy(name) == dims[i].hierarchy(name));
                    assert(dims[a].hierarchy(name) is Some);
                    assert(dims[b].hierarchy(name) is None);
                }
            }
        }
    }
}

// ---------------------------------------------------------------------------
// Saving
// ---------------------------------------------------------------------------

impl<N: Number> CatalogModel<N> {
    /// Dimensions and cubes go by their names, each of which stands for one;
    /// and a cube's dimensions are those it names.
    pub open spec fn in_place(self) -> bool {
        &&& dim_names(self.dims).no_duplicates()
        &&& self.dims.len() <= usize::MAX
        &&& distinct(self.cubes)
        &&& forall|k: int|
            0 <= k < self.cubes.len() ==> in_place_over((#[trigger] self.cubes[k]).1, self.dims)
    }

    /// Adding a cube keeps dimensions and cubes in place.
    pub proof fn adding_a_cube_keeps_in_place(
        self,
        name: Seq<char>,
        dimensions: Seq<Seq<char>>,
        measure: Option<Seq<char>>,
        is_aggregating: bool,
    )
        requires
            self.in_place(),
            self.dims.len() + dimensions.len() <= usize::MAX,
        ensures
            self.cube_added(name, dimensions, measure, is_aggregating).in_place(),
            self.cube_added(name, dimensions, measure, is_aggregating).cube(name) == Some(
                CubeModel::<N>::fresh(
                    name,
                    dimensions,
                    dims_made(self.dims, dimensions).1,
                    measure,
                    is_aggregating,
                ),
            ),
    {
        let (dims, places) = dims_made(self.dims, dimensions);
        let after = self.cube_added(name, dimensions, measure, is_aggregating);
        let key = lowercase(name);
        let cube = CubeModel::<N>::fresh(name, dimensions, places, measure, is_aggregating);
        made_in_place(self.dims, dimensions);
        put_keeps_distinct(self.cubes, key, cube);
        lookup_after_put(self.cubes, key, cube, key);
        place_of_is_first(keys(self.cubes), key);
        assert forall|k: int| 0 <= k < after.cubes.len() implies in_place_over(
            (#[trigger] after.cubes[k]).1,
            after.dims,
        ) by {
            if after.cubes[k].1 != cube {
                assert(after.cubes[k] == self.cubes[k]);
                let old_cube = self.cubes[k].1;
                assert(in_place_over(old_cube, self.dims));
                assert forall|i: int| 0 <= i < old_cube.dimensions.len() implies (
                #[trigger] old_cube.dimensions[i]) < dims.len() && dims[old_cube.dimensions[i] as int].name
                    == old_cube.dimension_names[i] by {
                    assert(old_cube.dimensions[i] < self.dims.len());
                    assert(dims[old_cube.dimensions[i] as int]
                        == self.dims[old_cube.dimensions[i] as int]);
                }
            }
        }
    }

    /// A database that is put together again from its dimensions and cubes is
    /// the one it was, with every display order rebuilt.
    pub proof fn restoring_gives_back(self)
        requires
            self.in_place(),
        ensures
            Self::restored(self.dims, self.cubes) == (CatalogModel {
                dims: Seq::new(self.dims.len(), |i: int| self.dims[i].rebuilt()),
                cubes: self.cubes,
            }),
    {
        let n = self.cubes.len() as int;
        assert(self.cubes.take(n) =~= self.cubes);
        self.attached_again(self.cubes, n);
        assert(self.reattached(self.cubes, n) =~= self.cubes);
    }

    /// What a file keeps of the database: the dimensions as they are, and the
    /// cubes but for the places of their dimensions and the answers they keep.
    pub open spec fn saved(self) -> (Seq<DimensionModel<N>>, Seq<(Seq<char>, CubeModel<N>)>) {
        (
            self.dims,
            Seq::new(
                self.cubes.len(),
                |k: int|
                    (
                        self.cubes[k].0,
                        CubeModel {
                            dimensions: Seq::empty(),
                            cache: Map::empty(),
                            ..self.cubes[k].1
                        },
                    ),
            ),
        )
    }

    /// The database in a file, if it is one that can be read. How the data behind
    /// the head are decoded is not this library's: `decode` says it.
    pub open spec fn loaded(
        bytes: Seq<u8>,
        decode: spec_fn(Seq<u8>) -> Option<
            (Seq<DimensionModel<N>>, Seq<(Seq<char>, CubeModel<N>)>),
        >,
    ) -> Option<Self> {
        match unframed(bytes) {
            Ok(payload) => match decode(payload) {
                Some((dims, cubes)) => Some(Self::restored(dims, cubes)),
                None => None,
            },
            Err(_) => None,
        }
    }

    /// A database that was saved is loaded as it was, without the answers that it
    /// kept and with every display order rebuilt, whatever the encoding, as long
    /// as it gives back what was encoded.
    pub proof fn loading_gives_back_what_was_saved(
        self,
        payload: Seq<u8>,
        decode: spec_fn(Seq<u8>) -> Option<
            (Seq<DimensionModel<N>>, Seq<(Seq<char>, CubeModel<N>)>),
        >,
    )
        requires
            self.in_place(),
            decode(payload) == Some(self.saved()),
        ensures
            Self::loaded(framed(payload), decode) == Some(
                CatalogModel {
                    dims: Seq::new(self.dims.len(), |i: int| self.dims[i].rebuilt()),
                    cubes: Seq::new(
                        self.cubes.len(),
                        |k: int|
                            (
                                self.cubes[k].0,
                                CubeModel { cache: Map::empty(), ..self.cubes[k].1 },
                            ),
                    ),
                },
            ),
    {
        frame_then_unframe(payload);
        let stored = self.saved().1;
        let n = self.cubes.len() as int;
        assert(stored.take(n) =~= stored);
        self.attached_again(stored, n);
        let cubes = Seq::new(
            self.cubes.len(),
            |k: int|
                (self.cubes[k].0, CubeModel { cache: Map::empty(), ..self.cubes[k].1 }),
        );
        assert(self.reattached(stored, n) =~= cubes);
    }

    /// The first `n` of the stored cubes with their dimensions in place.
    spec fn reattached(self, stored: Seq<(Seq<char>, CubeModel<N>)>, n: int) -> Seq<
        (Seq<char>, CubeModel<N>),
    > {
        Seq::new(
            n as nat,
            |k: int|
                (
                    stored[k].0,
                    CubeModel { dimensions: self.cubes[k].1.dimensions, ..stored[k].1 },
                ),
        )
    }

    proof fn attached_again(self, stored: Seq<(Seq<char>, CubeModel<N>)>, n: int)
        requires
            self.in_place(),
            0 <= n <= self.cubes.len(),
            stored.len() == self.cubes.len(),
            forall|k: int|
                0 <= k < stored.len() ==> (#[trigger] stored[k]).0 == self.cubes[k].0
                    && stored[k].1.dimension_names == self.cubes[k].1.dimension_names,
        ensures
            attached(self.dims, stored.take(n)) == (self.dims, self.reattached(stored, n)),
        decreases n,
    {
        let upto = stored.take(n);
        if n > 0 {
            let rest = self.reattached(stored, n - 1);
            assert(upto.drop_last() =~= stored.take(n - 1));
            self.attached_again(stored, n - 1);
            let (key, cube) = self.cubes[n - 1];
            assert(stored[n - 1].0 == key);
            assert(in_place_over(self.cubes[n - 1].1, self.dims));
            let count = cube.dimension_names.len() as int;
            made_again(self.dims, cube, count);
            assert(cube.dimension_names.take(count) =~= cube.dimension_names);
            assert(cube.dimensions.take(count) =~= cube.dimensions);
            place_of_is_first(keys(rest), key);
            match place_of(keys(rest), key) {
                Some(i) => {
                    assert(keys(rest)[i] == rest[i].0);
                    assert(rest[i].0 == stored[i].0);
                    assert(self.cubes[i].0 != self.cubes[n - 1].0);
                },
                None => {},
            }
            let again = CubeModel { dimensions: cube.dimensions, ..stored[n - 1].1 };
            assert(put(rest, key, again) =~= self.reattached(stored, n));
        } else {
            assert(upto =~= Seq::<(Seq<char>, CubeModel<N>)>::empty());
            assert(self.reattached(stored, n) =~= Seq::<(Seq<char>, CubeModel<N>)>::empty());
        }
    }
}

/// The cube's dimensions are those it names.
pub open spec fn in_place_over<N: Number>(cube: CubeModel<N>, dims: Seq<DimensionModel<N>>) -> bool {
    &&& cube.dimension_names.len() == cube.dimensions.len()
    &&& forall|i: int|
        0 <= i < cube.dimensions.len() ==> #[trigger] cube.dimensions[i] < dims.len()
            && dims[cube.dimensions[i] as int].name == cube.dimension_names[i]
}

proof fn made_again<N: Number>(dims: Seq<DimensionModel<N>>, cube: CubeModel<N>, n: int)
    requires
        dim_names(dims).no_duplicates(),
        in_place_over(cube, dims),
        0 <= n <= cube.dimensions.len(),
    ensures
        dims_made(dims, cube.dimension_names.take(n)) == (dims, cube.dimensions.take(n)),
    decreases n,
{
    let names = cube.dimension_names.take(n);
    if n > 0 {
        assert(names.drop_last() =~= cube.dimension_names.take(n - 1));
        made_again(dims, cube, n - 1);
        let place = cube.dimensions[n - 1];
        place_of_is_first(dim_names(dims), names.last());
        assert(dim_names(dims)[place as int] == names.last());
        assert(cube.dimensions.take(n - 1).push(place) =~= cube.dimensions.take(n));
    } else {
        assert(names =~= Seq::<Seq<char>>::empty());
        assert(cube.dimensions.take(0) =~= Seq::<usize>::empty());
    }
}

pub proof fn made_in_place<N: Number>(dims: Seq<DimensionModel<N>>, names: Seq<Seq<char>>)
    requires
        dim_names(dims).no_duplicates(),
        dims.len() + names.len() <= usize::MAX,
    ensures
        ({
            let (after, places) = dims_made(dims, names);
            &&& dim_names(after).no_duplicates()
            &&& dims.len() <= after.len() <= dims.len() + names.len()
            &&& forall|i: int| 0 <= i < dims.len() ==> #[trigger] after[i] == dims[i]
            &&& places.len() == names.len()
            &&& forall|i: int|
                0 <= i < places.len() ==> (#[trigger] places[i]) < after.len()
                    && after[places[i] as int].name == names[i]
        }),
    decreases names.len(),
{
    if names.len() > 0 {
        made_in_place(dims, names.drop_last());
        let (before, places) = dims_made(dims, names.drop_last());
        let (after, place) = dim_made(before, names.last());
        place_of_is_first(dim_names(before), names.last());
        if place_of(dim_names(before), names.last()) is None {
            assert(dim_names(after) =~= dim_names(before).push(names.last()));
            assert forall|i: int, j: int|
                0 <= i < dim_names(after).len() && 0 <= j < dim_names(after).len() && i
                    != j implies dim_names(after)[i] != dim_names(after)[j] by {
                if i < before.len() && j < before.len() {
                    assert(dim_names(before)[i] != dim_names(before)[j]);
                } else if i < before.len() {
                    assert(dim_names(before).contains(dim_names(before)[i]));
                } else {
                    assert(dim_names(before).contains(dim_names(before)[j]));
                }
            }
        } else {
            assert(dim_names(before)[place] == before[place].name);
        }
        let all = places.push(place as usize);
        assert forall|i: int| 0 <= i < all.len() implies (#[trigger] all[i]) < after.len()
            && after[all[i] as int].name == names[i] by {
            if i < places.len() {
                assert(places[i] < before.len());
                assert(after[places[i] as int] == before[places[i] as int]);
            }
        }
        assert forall|i: int| 0 <= i < dims.len() implies #[trigger] after[i] == dims[i] by {
            assert(before[i] == dims[i]);
        }
    }
}

// ---------------------------------------------------------------------------
// Display orders
// ---------------------------------------------------------------------------

impl<N: Number> HierarchyModel<N> {
    proof fn shares_alike(self, other: Self, leaves: Set<u32>, nodes: Seq<(u32, N)>, depth: nat)
        requires
            self.members == other.members,
            self.children == other.children,
        ensures
            self.shares(leaves, nodes, depth) == other.shares(leaves, nodes, depth),
        decreases self.members.len() + 2 - depth, nodes.len(),
    {
        if !(depth > self.members.len() + 1 || nodes.len() == 0) {
            let (id, weight) = nodes.last();
            self.shares_alike(other, leaves, nodes.drop_last(), depth);
            self.shares_alike(other, leaves, scaled(self.kids(id), weight), depth + 1);
            assert(self.kids(id) == other.kids(id));
        }
    }
}

impl<N: Number> DimensionModel<N> {
    /// The display orders have no part in what a name means, nor in what lies
    /// below a member.
    pub proof fn rebuilding_changes_no_member(self, hierarchy: Option<Seq<char>>, member: Seq<char>)
        ensures
            self.rebuilt().id_in(hierarchy, member) == self.id_in(hierarchy, member),
            self.rebuilt().leaf_weights(hierarchy, member) == self.leaf_weights(hierarchy, member),
    {
        let after = self.rebuilt();
        let named = lowercase(self.hierarchy_named(hierarchy));
        assert(keys(after.hierarchies) =~= keys(self.hierarchies));
        place_of_is_first(keys(self.hierarchies), named);
        match place_of(keys(self.hierarchies), named) {
            Some(p) => {
                let h = self.hierarchies[p].1;
                match h.id_of(member) {
                    Some(id) => {
                        h.shares_alike(
                            h.rebuilt(),
                            self.leaves(),
                            seq![(id, N::one_spec())],
                            0,
                        );
                    },
                    None => {},
                }
            },
            None => {},
        }
    }
}

impl<N: Number> CatalogModel<N> {
    /// Every cell is read after a database was put together again as it was
    /// before, and every sum is the same.
    pub proof fn restored_cells_are_read(self, k: int, members: Seq<Seq<char>>)
        requires
            self.in_place(),
            0 <= k < self.cubes.len(),
            members.len() == self.cubes[k].1.dimensions.len(),
        ensures
            ({
                let after = Self::restored(self.dims, self.cubes);
                &&& after.cubes[k] == self.cubes[k]
                &&& after.cubes[k].1.cell_at(after.dims, members) == self.cubes[k].1.cell_at(
                    self.dims,
                    members,
                )
                &&& after.cubes[k].1.computed(after.dims, members) == self.cubes[k].1.computed(
                    self.dims,
                    members,
                )
            }),
    {
        self.restoring_gives_back();
        let after = Self::restored(self.dims, self.cubes);
        let cube = self.cubes[k].1;
        assert(in_place_over(self.cubes[k].1, self.dims));
        let n = members.len() as int;
        assert(members.take(n) =~= members);
        assert forall|i: int| 0 <= i < members.len() implies cube.dim(after.dims, i) == cube.dim(
            self.dims,
            i,
        ).rebuilt() by {
            assert(cube.dimensions[i] < self.dims.len());
        }
        rebuilt_ids(cube, self.dims, after.dims, members, n);
        let a = cube.resolutions(after.dims, members);
        let b = cube.resolutions(self.dims, members);
        assert forall|i: int| 0 <= i < members.len() implies a[i] == b[i] by {
            assert(cube.dim(after.dims, i) == cube.dim(self.dims, i).rebuilt());
            cube.dim(self.dims, i).rebuilding_changes_no_member(
                split(members[i]).0,
                split(members[i]).1,
            );
        }
        assert(a =~= b);
    }
}

proof fn rebuilt_ids<N: Number>(
    cube: CubeModel<N>,
    dims: Seq<DimensionModel<N>>,
    after: Seq<DimensionModel<N>>,
    members: Seq<Seq<char>>,
    n: int,
)
    requires
        0 <= n <= members.len(),
        forall|i: int|
            0 <= i < members.len() ==> cube.dim(after, i) == (#[trigger] cube.dim(
                dims,
                i,
            )).rebuilt(),
    ensures
        cube.exact_ids(after, members.take(n)) == cube.exact_ids(dims, members.take(n)),
    decreases n,
{
    let upto = members.take(n);
    if n > 0 {
        assert(upto.drop_last() =~= members.take(n - 1));
        rebuilt_ids(cube, dims, after, members, n - 1);
        assert(cube.dim(after, n - 1) == cube.dim(dims, n - 1).rebuilt());
        cube.dim(dims, n - 1).rebuilding_changes_no_member(
            split(members[n - 1]).0,
            split(members[n - 1]).1,
        );
    }
}

// ---------------------------------------------------------------------------
// The case of names
// ---------------------------------------------------------------------------

/// A text that is equal to `item` but for case, if any, is found.
proof fn found_but_case(v: Seq<Seq<char>>, item: Seq<char>, i: int)
    requires
        0 <= i < v.len(),
        same_but_case(v[i], item),
    ensures
        place_but_case(v, item) matches Some(k) && 0 <= k < v.len() && same_but_case(v[k], item),
    decreases v.len(),
{
    if i < v.len() - 1 {
        found_but_case(v.drop_last(), item, i);
    } else {
        place_but_case_is_one(v.drop_last(), item);
    }
}

proof fn place_but_case_is_one(v: Seq<Seq<char>>, item: Seq<char>)
    ensures
        place_but_case(v, item) matches Some(k) ==> 0 <= k < v.len() && same_but_case(v[k], item),
    decreases v.len(),
{
    if v.len() > 0 {
        place_but_case_is_one(v.drop_last(), item);
    }
}

impl<N: Number> CatalogModel<N> {
    /// A cube goes by its name in any case.
    pub proof fn case_makes_no_other_cube(self, name: Seq<char>, same: Seq<char>)
        requires
            is_ascii_text(name),
            same_but_case(name, same),
        ensures
            self.cube(name) == self.cube(same),
            self.cube_place(name) == self.cube_place(same),
    {
        case_makes_no_difference(name, same);
    }

    /// A dimension is found by its name in any case: where some dimension has
    /// that name but for case, such a one is found.
    pub proof fn dimensions_are_found_in_any_case(self, name: Seq<char>, i: int)
        requires
            0 <= i < self.dims.len(),
            same_but_case(self.dims[i].name, name),
        ensures
            self.dim_place(name) matches Some(k) && 0 <= k < self.dims.len() && same_but_case(
                self.dims[k].name,
                name,
            ),
    {
        let names = dim_names(self.dims);
        place_of_is_first(names, name);
        assert(names[i] == self.dims[i].name);
        found_but_case(names, name, i);
    }
}

} // verus!
