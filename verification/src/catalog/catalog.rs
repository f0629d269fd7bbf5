use crate::cube::cube::{dims_of, Cube, CubeModel};
use crate::dimension::dimension::{Dimension, DimensionModel};
use crate::number::Number;
use crate::storage::name_map::{entries_of, find_key, keys, lookup, put};
use crate::storage::sparse_store::modelled_restrict;
use crate::text::{
    answer, cat3, cat5, cat7, decimal, decimal_text, equal_but_case, find_but_case, lowercase,
    optional, optional_word, place_but_case, place_but_case_extends, place_of, place_of_extends,
    same, same_but_case, texts, to_lowercase, words,
};
use vstd::prelude::*;

verus! {

broadcast use modelled_restrict;

/// A database: dimensions, and the cubes over them.
///
/// Dimensions are shared: a cube knows its own by their places in the list,
/// which nothing ever leaves. Cubes go by their lower-case names.
pub struct Catalog<N> {
    pub dimensions: Vec<Dimension<N>>,
    pub cubes: Vec<(String, Cube<N>)>,
}

/// What a database holds.
#[verifier::ext_equal]
pub struct CatalogModel<N> {
    pub dims: Seq<DimensionModel<N>>,
    pub cubes: Seq<(Seq<char>, CubeModel<N>)>,
}

/// Cubes by name.
pub open spec fn cubes_of<N: Number>(cubes: Seq<(String, Cube<N>)>) -> Seq<
    (Seq<char>, CubeModel<N>),
> {
    Seq::new(cubes.len(), |i: int| (cubes[i].0@, cubes[i].1@))
}

impl<N: Number> View for Catalog<N> {
    type V = CatalogModel<N>;

    open spec fn view(&self) -> CatalogModel<N> {
        CatalogModel { dims: dims_of(self.dimensions@), cubes: cubes_of(self.cubes@) }
    }
}

/// The names of the dimensions.
pub open spec fn dim_names<N>(dims: Seq<DimensionModel<N>>) -> Seq<Seq<char>> {
    Seq::new(dims.len(), |i: int| dims[i].name)
}

/// The dimensions with one of that name, and its place.
pub open spec fn dim_made<N: Number>(dims: Seq<DimensionModel<N>>, name: Seq<char>) -> (
    Seq<DimensionModel<N>>,
    int,
) {
    match place_of(dim_names(dims), name) {
        Some(i) => (dims, i),
        None => (dims.push(DimensionModel::fresh(name)), dims.len() as int),
    }
}

/// The dimensions with one of each name, and their places.
pub open spec fn dims_made<N: Number>(dims: Seq<DimensionModel<N>>, names: Seq<Seq<char>>) -> (
    Seq<DimensionModel<N>>,
    Seq<usize>,
)
    decreases names.len(),
{
    if names.len() == 0 {
        (dims, Seq::empty())
    } else {
        let (before, places) = dims_made(dims, names.drop_last());
        let (after, place) = dim_made(before, names.last());
        (after, places.push(place as usize))
    }
}

/// The first dimension that has a hierarchy of that name.
pub open spec fn owner_of<N: Number>(dims: Seq<DimensionModel<N>>, hierarchy: Seq<char>) -> Option<
    int,
>
    decreases dims.len(),
{
    if dims.len() == 0 {
        None
    } else {
        match owner_of(dims.drop_last(), hierarchy) {
            Some(i) => Some(i),
            None => if dims.last().hierarchy(hierarchy) is Some {
                Some(dims.len() - 1)
            } else {
                None
            },
        }
    }
}

/// The cubes without the answers they have kept.
pub open spec fn uncached<N>(cubes: Seq<(Seq<char>, CubeModel<N>)>) -> Seq<
    (Seq<char>, CubeModel<N>),
> {
    Seq::new(
        cubes.len(),
        |i: int| (cubes[i].0, CubeModel { cache: Map::empty(), ..cubes[i].1 }),
    )
}

/// One of the first `n` coordinates is one of the ids, in the dimension of that
/// name.
pub open spec fn refers_to(
    names: Seq<Seq<char>>,
    dimension: Seq<char>,
    ids: Seq<u32>,
    path: Seq<u32>,
    n: int,
) -> bool {
    exists|d: int|
        0 <= d < n && d < path.len() && ids.contains(path[d]) && same_but_case(
            #[trigger] names[d],
            dimension,
        )
}

/// A cube without the cells of a member of one of its dimensions, by the
/// member's ids, and without the answers it has kept.
pub open spec fn purged<N>(cube: CubeModel<N>, dimension: Seq<char>, ids: Seq<u32>) -> CubeModel<
    N,
> {
    CubeModel {
        cells: cube.cells.restrict(
            Set::new(
                |path: Seq<u32>|
                    !refers_to(
                        cube.dimension_names,
                        dimension,
                        ids,
                        path,
                        cube.dimension_names.len() as int,
                    ),
            ),
        ),
        cache: Map::empty(),
        ..cube
    }
}

/// How many of the cubes have the dimension.
pub open spec fn count_with<N>(cubes: Seq<(Seq<char>, CubeModel<N>)>, dimension: Seq<char>) -> nat
    decreases cubes.len(),
{
    if cubes.len() == 0 {
        0
    } else {
        count_with(cubes.drop_last(), dimension) + if place_but_case(
            cubes.last().1.dimension_names,
            dimension,
        ) is Some {
            1nat
        } else {
            0nat
        }
    }
}

/// The cubes with their dimensions attached, and the dimensions with those that
/// were missing.
pub open spec fn attached<N: Number>(
    dims: Seq<DimensionModel<N>>,
    cubes: Seq<(Seq<char>, CubeModel<N>)>,
) -> (Seq<DimensionModel<N>>, Seq<(Seq<char>, CubeModel<N>)>)
    decreases cubes.len(),
{
    if cubes.len() == 0 {
        (dims, Seq::empty())
    } else {
        let (before, done) = attached(dims, cubes.drop_last());
        let (key, cube) = cubes.last();
        let (after, places) = dims_made(before, cube.dimension_names);
        (after, put(done, key, CubeModel { dimensions: places, ..cube }))
    }
}

/// Why a hierarchy cannot have that name.
pub open spec fn name_in_use(hierarchy: Seq<char>, owner: Seq<char>) -> Seq<char> {
    "Hierarchy '"@ + hierarchy + "' already exists in dimension '"@ + owner
        + "'; hierarchy names must be unique across the database."@
}

impl<N: Number> CatalogModel<N> {
    /// Every cube's dimensions are in the database.
    pub open spec fn valid(self) -> bool {
        forall|i: int|
            0 <= i < self.cubes.len() ==> (#[trigger] self.cubes[i]).1.fits(self.dims.len())
    }

    pub open spec fn empty() -> Self {
        CatalogModel { dims: Seq::empty(), cubes: Seq::empty() }
    }

    /// The place of the dimension of that name, or else of one that differs
    /// from it only in case.
    pub open spec fn dim_place(self, name: Seq<char>) -> Option<int> {
        match place_of(dim_names(self.dims), name) {
            Some(i) => Some(i),
            None => place_but_case(dim_names(self.dims), name),
        }
    }

    pub open spec fn cube(self, name: Seq<char>) -> Option<CubeModel<N>> {
        lookup(self.cubes, lowercase(name))
    }

    /// The place of a cube.
    pub open spec fn cube_place(self, name: Seq<char>) -> Option<int> {
        place_of(keys(self.cubes), lowercase(name))
    }

    /// The database with a new hierarchy in a dimension, and the name of the
    /// dimension, which is made where there is none. No two hierarchies of the
    /// database may have one name; a dimension has a hierarchy of its own name.
    pub open spec fn hierarchy_created(self, dimension: Seq<char>, hierarchy: Seq<char>) -> (
        Self,
        Result<Seq<char>, Seq<char>>,
    ) {
        match (self.dim_place(dimension), owner_of(self.dims, dimension)) {
            (Some(i), _) => self.hierarchy_created_at(i, hierarchy),
            (None, Some(owner)) => (self, Err(name_in_use(dimension, self.dims[owner].name))),
            (None, None) => {
                let (dims, i) = dim_made(self.dims, dimension);
                (CatalogModel { dims, ..self }).hierarchy_created_at(i, hierarchy)
            },
        }
    }

    /// The database with a new hierarchy in the dimension at `i`.
    pub open spec fn hierarchy_created_at(self, i: int, hierarchy: Seq<char>) -> (
        Self,
        Result<Seq<char>, Seq<char>>,
    ) {
        let dims = self.dims;
        let owner = owner_of(dims, hierarchy);
        if owner is Some && owner->0 != i {
            (self, Err(name_in_use(hierarchy, dims[owner->0].name)))
        } else {
            match dims[i].hierarchy_created(hierarchy) {
                (dim, Ok(())) => (
                    CatalogModel { dims: dims.update(i, dim), cubes: uncached(self.cubes) },
                    Ok(dims[i].name),
                ),
                (dim, Err(e)) => (self, Err(e)),
            }
        }
    }

    /// The dimension and the hierarchy that are meant: the hierarchy of that
    /// name, or else the default one of the dimension of that name, which is
    /// made where there is none. True where the dimension was made.
    pub open spec fn reference_resolved(self, reference: Seq<char>) -> (
        Self,
        int,
        Seq<char>,
        bool,
    ) {
        match owner_of(self.dims, reference) {
            Some(i) => (self, i, self.dims[i].hierarchy(reference)->0.name, false),
            None => {
                let (dims, i) = dim_made(self.dims, reference);
                (
                    CatalogModel { dims, ..self },
                    i,
                    dims[i].default_hierarchy,
                    self.dim_place(reference) is None,
                )
            },
        }
    }

    /// The dimension and the hierarchy that are meant, if they are there: the
    /// hierarchy of that name, or else the default one of the dimension of that
    /// name.
    pub open spec fn reference_found(self, reference: Seq<char>) -> Option<(int, Seq<char>)> {
        match owner_of(self.dims, reference) {
            Some(i) => Some((i, self.dims[i].hierarchy(reference)->0.name)),
            None => match self.dim_place(reference) {
                Some(i) => Some((i, self.dims[i].default_hierarchy)),
                None => None,
            },
        }
    }

    /// The dimension that is meant, and the hierarchy where one is named that
    /// is not the dimension itself.
    pub open spec fn reference_named(self, reference: Seq<char>) -> Option<
        (Seq<char>, Option<Seq<char>>),
    > {
        match self.dim_place(reference) {
            Some(i) => Some((self.dims[i].name, None)),
            None => match owner_of(self.dims, reference) {
                Some(i) => Some(
                    (self.dims[i].name, Some(self.dims[i].hierarchy(reference)->0.name)),
                ),
                None => None,
            },
        }
    }

    pub open spec fn cube_added(
        self,
        name: Seq<char>,
        dimensions: Seq<Seq<char>>,
        measure: Option<Seq<char>>,
        is_aggregating: bool,
    ) -> Self {
        let (dims, places) = dims_made(self.dims, dimensions);
        CatalogModel {
            dims,
            cubes: put(
                self.cubes,
                lowercase(name),
                CubeModel::fresh(name, dimensions, places, measure, is_aggregating),
            ),
        }
    }

    /// The database without a member and its cells, and the news of it.
    pub open spec fn member_deleted(self, dimension: Seq<char>, member: Seq<char>) -> (
        Self,
        Result<Seq<char>, Seq<char>>,
    ) {
        match self.dim_place(dimension) {
            None => (self, Err("Dimension '"@ + dimension + "' not found."@)),
            Some(i) => match self.dims[i].member_deleted(member) {
                (dim, Err(e)) => (self, Err(e)),
                (dim, Ok(ids)) => {
                    let name = self.dims[i].name;
                    (
                        CatalogModel {
                            dims: self.dims.update(i, dim),
                            cubes: Seq::new(
                                self.cubes.len(),
                                |k: int| (self.cubes[k].0, purged(self.cubes[k].1, name, ids)),
                            ),
                        },
                        Ok(
                            "Deleted member '"@ + member + "' from dimension '"@ + name
                                + "' (data purged from "@ + decimal(count_with(self.cubes, name))
                                + " cube(s))."@,
                        ),
                    )
                },
            },
        }
    }

    /// The database made of saved dimensions and cubes.
    pub open spec fn restored(
        dims: Seq<DimensionModel<N>>,
        cubes: Seq<(Seq<char>, CubeModel<N>)>,
    ) -> Self {
        let (all, attached_cubes) = attached(dims, cubes);
        CatalogModel {
            dims: Seq::new(all.len(), |i: int| all[i].rebuilt()),
            cubes: attached_cubes,
        }
    }
}

proof fn owner_of_extends<N: Number>(
    dims: Seq<DimensionModel<N>>,
    n: int,
    hierarchy: Seq<char>,
)
    requires
        0 <= n <= dims.len(),
        owner_of(dims.take(n), hierarchy) is Some,
    ensures
        owner_of(dims, hierarchy) == owner_of(dims.take(n), hierarchy),
    decreases dims.len() - n,
{
    if n < dims.len() {
        assert(dims.take(n + 1).drop_last() =~= dims.take(n));
        owner_of_extends(dims, n + 1, hierarchy);
    } else {
        assert(dims.take(n) =~= dims);
    }
}

// ---------------------------------------------------------------------------
// The operations
// ---------------------------------------------------------------------------

/// The place of the dimension of exactly that name.
pub fn find_dimension<N: Number>(dims: &Vec<Dimension<N>>, name: &str) -> (r: Option<usize>)
    ensures
        match r {
            Some(i) => place_of(dim_names(dims_of(dims@)), name@) == Some(i as int) && i
                < dims@.len(),
            None => place_of(dim_names(dims_of(dims@)), name@) is None,
        },
{
    let ghost all = dim_names(dims_of(dims@));
    let mut i: usize = 0;
    assert(all.take(0) =~= Seq::<Seq<char>>::empty());
    while i < dims.len()
        invariant
            i <= dims@.len(),
            all == dim_names(dims_of(dims@)),
            place_of(all.take(i as int), name@) is None,
        decreases dims@.len() - i,
    {
        assert(all.take(i as int + 1).drop_last() =~= all.take(i as int));
        if same(dims[i].name.as_str(), name) {
            proof {
                place_of_extends(all, i as int + 1, name@);
            }
            return Some(i);
        }
        i += 1;
    }
    assert(all.take(i as int) =~= all);
    None
}

/// Takes the cells of a member out of a cube, wherever the cube has the
/// dimension.
fn purge<N: Number>(cube: &mut Cube<N>, dimension: &str, ids: &Vec<u32>)
    ensures
        final(cube)@ == purged(old(cube)@, dimension@, ids@),
{
    let ghost was = cube@;
    let ghost names = was.dimension_names;
    let mut d: usize = 0;
    assert(was.cells =~= was.cells.restrict(
        Set::new(|path: Seq<u32>| !refers_to(names, dimension@, ids@, path, 0)),
    ));
    while d < cube.dimension_names.len()
        invariant
            d <= cube.dimension_names@.len(),
            names == was.dimension_names,
            names == texts(cube.dimension_names@),
            cube@ == (CubeModel {
                cells: was.cells.restrict(
                    Set::new(|path: Seq<u32>| !refers_to(names, dimension@, ids@, path, d as int)),
                ),
                ..was
            }),
        decreases cube.dimension_names@.len() - d,
    {
        let ghost before = cube@;
        let ghost next = Set::new(
            |path: Seq<u32>| !refers_to(names, dimension@, ids@, path, d as int + 1),
        );
        if equal_but_case(cube.dimension_names[d].as_str(), dimension) {
            purge_at(cube, d, ids);
            assert forall|path: Seq<u32>| #[trigger] cube@.cells.contains_key(path)
                == was.cells.restrict(next).contains_key(path) by {
                if path.len() > d && ids@.contains(path[d as int]) {
                    assert(same_but_case(names[d as int], dimension@));
                    assert(refers_to(names, dimension@, ids@, path, d as int + 1));
                }
            }
        }
        assert(cube@.cells =~= was.cells.restrict(next));
        d += 1;
    }
    cube.clear_cache();
}

/// Takes the cells out of a cube that have one of the ids at that place.
fn purge_at<N: Number>(cube: &mut Cube<N>, d: usize, ids: &Vec<u32>)
    ensures
        final(cube)@ == (CubeModel {
            cells: old(cube)@.cells.restrict(
                Set::new(|path: Seq<u32>| !(path.len() > d && ids@.contains(path[d as int]))),
            ),
            ..old(cube)@
        }),
        final(cube).dimension_names == old(cube).dimension_names,
{
    let ghost was = cube@;
    let mut k: usize = 0;
    assert(was.cells =~= was.cells.restrict(
        Set::new(|path: Seq<u32>| !(path.len() > d && ids@.take(0).contains(path[d as int]))),
    ));
    while k < ids.len()
        invariant
            k <= ids@.len(),
            cube.dimension_names == old(cube).dimension_names,
            cube@ == (CubeModel {
                cells: was.cells.restrict(
                    Set::new(
                        |path: Seq<u32>|
                            !(path.len() > d && ids@.take(k as int).contains(path[d as int])),
                    ),
                ),
                ..was
            }),
        decreases ids@.len() - k,
    {
        let ghost seen = ids@.take(k as int);
        let ghost now = ids@.take(k as int + 1);
        cube.store.remove_cells_with_id_at(d, ids[k]);
        assert forall|id: u32| #[trigger] now.contains(id) == (seen.contains(id) || id
            == ids@[k as int]) by {
            assert(now =~= seen.push(ids@[k as int]));
            if seen.contains(id) {
                let j = choose|j: int| 0 <= j < seen.len() && seen[j] == id;
                assert(now[j] == id);
            }
            assert(now[k as int] == ids@[k as int]);
        }
        assert(cube@.cells =~= was.cells.restrict(
            Set::new(|path: Seq<u32>| !(path.len() > d && now.contains(path[d as int]))),
        ));
        k += 1;
    }
    assert(ids@.take(k as int) =~= ids@);
}

/// The dimension of that name, made where there is none.
fn make_dimension<N: Number>(dims: &mut Vec<Dimension<N>>, name: &str) -> (r: usize)
    ensures
        (dims_of(final(dims)@), r as int) == dim_made(dims_of(old(dims)@), name@),
        r < final(dims)@.len(),
        old(dims)@.len() <= final(dims)@.len(),
{
    match find_dimension(dims, name) {
        Some(i) => i,
        None => {
            let ghost was = dims_of(dims@);
            let place = dims.len();
            dims.push(Dimension::new(name));
            assert(dims_of(dims@) =~= was.push(DimensionModel::fresh(name@)));
            place
        },
    }
}

/// The dimensions of those names, made where they are not there.
fn make_dimensions<N: Number>(dims: &mut Vec<Dimension<N>>, names: &Vec<String>) -> (r: Vec<usize>)
    ensures
        (dims_of(final(dims)@), r@) == dims_made(dims_of(old(dims)@), texts(names@)),
        r@.len() == names@.len(),
        forall|i: int| 0 <= i < r@.len() ==> #[trigger] r@[i] < final(dims)@.len(),
        old(dims)@.len() <= final(dims)@.len(),
{
    let ghost was = dims_of(dims@);
    let ghost all = texts(names@);
    let mut places: Vec<usize> = Vec::new();
    let mut i: usize = 0;
    while i < names.len()
        invariant
            i <= names@.len(),
            all == texts(names@),
            was == dims_of(old(dims)@),
            places@.len() == i,
            (dims_of(dims@), places@) == dims_made(was, all.take(i as int)),
            forall|k: int| 0 <= k < places@.len() ==> #[trigger] places@[k] < dims@.len(),
            old(dims)@.len() <= dims@.len(),
        decreases names@.len() - i,
    {
        assert(all.take(i as int + 1).drop_last() =~= all.take(i as int));
        let place = make_dimension(dims, names[i].as_str());
        places.push(place);
        i += 1;
    }
    assert(all.take(i as int) =~= all);
    places
}

impl<N: Number> Default for Catalog<N> {
    fn default() -> (r: Self)
        ensures
            r@ == CatalogModel::<N>::empty(),
    {
        Catalog::new()
    }
}

impl<N: Number> Catalog<N> {
    pub fn new() -> (r: Self)
        ensures
            r@ == CatalogModel::<N>::empty(),
            r@.valid(),
    {
        Catalog { dimensions: Vec::new(), cubes: Vec::new() }
    }

    /// Forgets the answers that the cubes have kept.
    pub fn clear_all_caches(&mut self)
        ensures
            final(self)@ == (CatalogModel { cubes: uncached(old(self)@.cubes), ..old(self)@ }),
            old(self)@.valid() ==> final(self)@.valid(),
    {
        let ghost was = self@.cubes;
        let ghost end = uncached(was);
        let mut i: usize = 0;
        while i < self.cubes.len()
            invariant
                i <= self.cubes@.len(),
                was.len() == self.cubes@.len(),
                end == uncached(was),
                self@.dims == old(self)@.dims,
                forall|k: int| 0 <= k < i ==> #[trigger] self@.cubes[k] == end[k],
                forall|k: int| i <= k < was.len() ==> #[trigger] self@.cubes[k] == was[k],
            decreases self.cubes@.len() - i,
        {
            let ghost before = self@.cubes;
            assert(before[i as int] == was[i as int]);
            self.cubes[i].1.clear_cache();
            assert(self@.cubes =~= before.update(i as int, end[i as int]));
            i += 1;
        }
        assert(self@.cubes =~= end);
    }

    /// The place of the dimension of that name, which is made where there is
    /// none.
    pub fn get_or_create_dimension(&mut self, name: &str) -> (r: usize)
        ensures
            (final(self)@.dims, r as int) == dim_made(old(self)@.dims, name@),
            final(self)@.cubes == old(self)@.cubes,
            r < final(self).dimensions@.len(),
            old(self)@.valid() ==> final(self)@.valid(),
    {
        make_dimension(&mut self.dimensions, name)
    }

    /// The place of the dimension of that name, or else of one that differs
    /// from it only in case.
    pub fn get_dimension(&self, name: &str) -> (r: Option<usize>)
        ensures
            match r {
                Some(i) => self@.dim_place(name@) == Some(i as int) && i < self.dimensions@.len(),
                None => self@.dim_place(name@) is None,
            },
    {
        match find_dimension(&self.dimensions, name) {
            Some(i) => {
                return Some(i);
            },
            None => {},
        }
        let ghost all = dim_names(self@.dims);
        let mut i: usize = 0;
        while i < self.dimensions.len()
            invariant
                i <= self.dimensions@.len(),
                all == dim_names(self@.dims),
                place_of(all, name@) is None,
                place_but_case(all.take(i as int), name@) is None,
            decreases self.dimensions@.len() - i,
        {
            assert(all.take(i as int + 1).drop_last() =~= all.take(i as int));
            if equal_but_case(self.dimensions[i].name.as_str(), name) {
                proof {
                    place_but_case_extends(all, i as int + 1, name@);
                }
                return Some(i);
            }
            i += 1;
        }
        assert(all.take(i as int) =~= all);
        None
    }

    /// Creates a hierarchy in a dimension, which is made where there is none of
    /// that name in any case. The name must not be that of a hierarchy of any
    /// dimension, nor may that of a dimension that has to be made. Returns the
    /// name of the dimension.
    pub fn create_hierarchy(&mut self, dimension: &str, hierarchy: &str) -> (r: Result<
        String,
        String,
    >)
        ensures
            (final(self)@, answer(r)) == old(self)@.hierarchy_created(dimension@, hierarchy@),
            old(self)@.valid() ==> final(self)@.valid(),
    {
        let place = match self.get_dimension(dimension) {
            Some(place) => place,
            None => match self.find_owner(dimension) {
                Some(owner) => {
                    return Err(self.in_use(dimension, owner));
                },
                None => self.get_or_create_dimension(dimension),
            },
        };
        self.create_hierarchy_at(place, hierarchy)
    }

    /// Says why a hierarchy cannot have that name.
    fn in_use(&self, hierarchy: &str, owner: usize) -> (r: String)
        requires
            owner < self.dimensions@.len(),
        ensures
            r@ == name_in_use(hierarchy@, self@.dims[owner as int].name),
    {
        cat5(
            "Hierarchy '",
            hierarchy,
            "' already exists in dimension '",
            self.dimensions[owner].name.as_str(),
            "'; hierarchy names must be unique across the database.",
        )
    }

    fn create_hierarchy_at(&mut self, place: usize, hierarchy: &str) -> (r: Result<String, String>)
        requires
            place < old(self).dimensions@.len(),
        ensures
            (final(self)@, answer(r)) == old(self)@.hierarchy_created_at(place as int, hierarchy@),
            old(self)@.valid() ==> final(self)@.valid(),
    {
        let ghost dims = self@.dims;
        let name = self.dimensions[place].name.clone();
        match self.find_owner(hierarchy) {
            Some(owner) => {
                if owner != place {
                    return Err(self.in_use(hierarchy, owner));
                }
            },
            None => {},
        }
        let created = self.dimensions[place].create_hierarchy(hierarchy);
        assert(self@.dims =~= dims.update(
            place as int,
            dims[place as int].hierarchy_created(hierarchy@).0,
        ));
        match created {
            Ok(()) => {
                self.clear_all_caches();
                Ok(name)
            },
            Err(e) => {
                assert(self@.dims =~= dims);
                Err(e)
            },
        }
    }

    /// The place of the first dimension that has a hierarchy of that name.
    fn find_owner(&self, hierarchy: &str) -> (r: Option<usize>)
        ensures
            match r {
                Some(i) => owner_of(self@.dims, hierarchy@) == Some(i as int) && i
                    < self.dimensions@.len() && self@.dims[i as int].hierarchy(hierarchy@) is Some,
                None => owner_of(self@.dims, hierarchy@) is None,
            },
    {
        let ghost all = self@.dims;
        let mut i: usize = 0;
        while i < self.dimensions.len()
            invariant
                i <= self.dimensions@.len(),
                all == self@.dims,
                owner_of(all.take(i as int), hierarchy@) is None,
            decreases self.dimensions@.len() - i,
        {
            assert(all.take(i as int + 1).drop_last() =~= all.take(i as int));
            if self.dimensions[i].has_hierarchy(hierarchy) {
                proof {
                    owner_of_extends(all, i as int + 1, hierarchy@);
                }
                return Some(i);
            }
            i += 1;
        }
        assert(all.take(i as int) =~= all);
        None
    }

    /// The name of the dimension that has a hierarchy of that name.
    pub fn find_hierarchy_owner(&self, hierarchy: &str) -> (r: Option<String>)
        ensures
            optional(r) == (match owner_of(self@.dims, hierarchy@) {
                Some(i) => Some(self@.dims[i].name),
                None => None,
            }),
    {
        match self.find_owner(hierarchy) {
            Some(i) => Some(self.dimensions[i].name.clone()),
            None => None,
        }
    }

    /// The dimension that has a hierarchy of that name, and the hierarchy's
    /// name as it was given.
    pub fn resolve_hierarchy(&self, hierarchy: &str) -> (r: Option<(usize, String)>)
        ensures
            match r {
                Some((i, name)) => owner_of(self@.dims, hierarchy@) == Some(i as int) && i
                    < self.dimensions@.len() && self@.dims[i as int].hierarchy(hierarchy@)->0.name
                    == name@,
                None => owner_of(self@.dims, hierarchy@) is None,
            },
    {
        match self.find_owner(hierarchy) {
            Some(i) => match self.dimensions[i].hierarchy(hierarchy) {
                Some(h) => Some((i, h.name.clone())),
                None => None,
            },
            None => None,
        }
    }

    /// The dimension and the hierarchy that a reference means: the hierarchy of
    /// that name, or else the default hierarchy of the dimension of that name,
    /// which is made where there is none. True where the dimension was made.
    pub fn resolve_reference(&mut self, reference: &str) -> (r: (usize, String, bool))
        ensures
            (final(self)@, r.0 as int, r.1@, r.2) == old(self)@.reference_resolved(reference@),
            r.0 < final(self).dimensions@.len(),
            old(self)@.valid() ==> final(self)@.valid(),
    {
        match self.resolve_hierarchy(reference) {
            Some((i, name)) => {
                return (i, name, false);
            },
            None => {},
        }
        let existed = self.get_dimension(reference).is_some();
        let place = self.get_or_create_dimension(reference);
        let name = self.dimensions[place].default_hierarchy_name().to_string();
        (place, name, !existed)
    }

    /// Finds the dimension and the hierarchy that are meant: the hierarchy of
    /// that name, or else the default one of the dimension of that name.
    pub fn find_reference(&self, reference: &str) -> (r: Option<(usize, String)>)
        ensures
            match r {
                Some((i, name)) => self@.reference_found(reference@) == Some((i as int, name@)) && i
                    < self.dimensions@.len(),
                None => self@.reference_found(reference@) is None,
            },
    {
        match self.resolve_hierarchy(reference) {
            Some(found) => Some(found),
            None => match self.get_dimension(reference) {
                Some(i) => Some((i, self.dimensions[i].default_hierarchy_name().to_string())),
                None => None,
            },
        }
    }

    /// The name of the dimension that a reference means, and of the hierarchy
    /// where it is one that is not named like a dimension.
    pub fn dimension_of_reference(&self, reference: &str) -> (r: Option<(String, Option<String>)>)
        ensures
            match r {
                Some((dimension, hierarchy)) => self@.reference_named(reference@) == Some(
                    (dimension@, optional(hierarchy)),
                ),
                None => self@.reference_named(reference@) is None,
            },
    {
        match self.get_dimension(reference) {
            Some(i) => Some((self.dimensions[i].name.clone(), None)),
            None => match self.resolve_hierarchy(reference) {
                Some((i, name)) => Some((self.dimensions[i].name.clone(), Some(name))),
                None => None,
            },
        }
    }

    /// Adds a cube over the dimensions of those names, which are made where
    /// they are not there. It takes the place of a cube of the same name.
    pub fn add_cube(
        &mut self,
        name: &str,
        dim_names: &[&str],
        measure_dim: Option<&str>,
        is_aggregating: bool,
    )
        ensures
            final(self)@ == old(self)@.cube_added(
                name@,
                words(dim_names@),
                optional_word(measure_dim),
                is_aggregating,
            ),
            old(self)@.valid() ==> final(self)@.valid(),
    {
        let names = own_texts(dim_names);
        let places = make_dimensions(&mut self.dimensions, &names);
        let measure = match measure_dim {
            Some(m) => Some(m.to_string()),
            None => None,
        };
        let cube = Cube::new(name, names, places, measure, is_aggregating);
        assert(cube@.fits(self.dimensions@.len()));
        proof {
            if old(self)@.valid() {
                assert(cube@.fits(self.dimensions@.len()));
                assert forall|i: int| 0 <= i < self.cubes@.len() implies (#[trigger] cubes_of(
                    self.cubes@,
                )[i]).1.fits(self.dimensions@.len()) by {
                    assert(old(self)@.cubes[i].1.fits(old(self)@.dims.len()));
                }
            }
        }
        put_cube(&mut self.cubes, to_lowercase(name), cube);
    }

    /// The place of a cube, by its name in any case.
    pub fn find_cube(&self, name: &str) -> (r: Option<usize>)
        ensures
            match r {
                Some(i) => self@.cube_place(name@) == Some(i as int) && i < self.cubes@.len()
                    && self@.cube(name@) == Some(self.cubes@[i as int].1@),
                None => self@.cube_place(name@) is None && self@.cube(name@) is None,
            },
    {
        assert(keys(entries_of(self.cubes@)) =~= keys(self@.cubes));
        find_key(&self.cubes, to_lowercase(name).as_str())
    }

    /// The cube of that name, in any case, to be changed.
    pub fn get_cube_mut(&mut self, name: &str) -> (r: Option<&mut Cube<N>>)
        ensures
            match r {
                Some(cube) => old(self)@.cube(name@) == Some((*cube)@) && final(self)@ == (
                CatalogModel {
                    cubes: old(self)@.cubes.update(
                        old(self)@.cube_place(name@)->0,
                        (
                            old(self)@.cubes[old(self)@.cube_place(name@)->0].0,
                            (*final(cube))@,
                        ),
                    ),
                    ..old(self)@
                }),
                None => old(self)@.cube(name@) is None && final(self)@ == old(self)@,
            },
    {
        match self.find_cube(name) {
            Some(i) => Some(&mut self.cubes[i].1),
            None => None,
        }
    }

    /// The cube of that name, in any case.
    pub fn get_cube(&self, name: &str) -> (r: Option<&Cube<N>>)
        ensures
            match r {
                Some(cube) => self@.cube(name@) == Some(cube@),
                None => self@.cube(name@) is None,
            },
    {
        match self.find_cube(name) {
            Some(i) => Some(&self.cubes[i].1),
            None => None,
        }
    }

    /// Deletes a member from a dimension, and from every cube over that
    /// dimension the cells of the member. Returns the news of it.
    pub fn delete_member(&mut self, dimension: &str, member: &str) -> (r: Result<String, String>)
        ensures
            (final(self)@, answer(r)) == old(self)@.member_deleted(dimension@, member@),
            old(self)@.valid() ==> final(self)@.valid(),
    {
        let place = match self.get_dimension(dimension) {
            Some(i) => i,
            None => {
                return Err(cat3("Dimension '", dimension, "' not found."));
            },
        };
        let ghost dims = self@.dims;
        let name = self.dimensions[place].name.clone();
        let deleted = self.dimensions[place].remove_member(member);
        assert(self@.dims =~= dims.update(place as int, dims[place as int].member_deleted(member@).0));
        let ids = match deleted {
            Ok(ids) => ids,
            Err(e) => {
                assert(self@.dims =~= dims);
                return Err(e);
            },
        };
        let ghost was = self@.cubes;
        let ghost end = Seq::new(was.len(), |k: int| (was[k].0, purged(was[k].1, name@, ids@)));
        let ghost after = self@.dims;
        let mut touched: usize = 0;
        let mut i: usize = 0;
        while i < self.cubes.len()
            invariant
                i <= self.cubes@.len(),
                was.len() == self.cubes@.len(),
                end == Seq::new(was.len(), |k: int| (was[k].0, purged(was[k].1, name@, ids@))),
                self@.dims == after,
                touched <= i,
                touched == count_with(was.take(i as int), name@),
                forall|k: int| 0 <= k < i ==> #[trigger] self@.cubes[k] == end[k],
                forall|k: int| i <= k < was.len() ==> #[trigger] self@.cubes[k] == was[k],
            decreases self.cubes@.len() - i,
        {
            assert(was.take(i as int + 1).drop_last() =~= was.take(i as int));
            let ghost before = self@.cubes;
            assert(before[i as int] == was[i as int]);
            if find_but_case(&self.cubes[i].1.dimension_names, name.as_str()).is_some() {
                touched += 1;
            }
            purge(&mut self.cubes[i].1, name.as_str(), &ids);
            assert(self@.cubes =~= before.update(i as int, end[i as int]));
            i += 1;
        }
        assert(was.take(i as int) =~= was);
        assert(self@.cubes =~= end);
        proof {
            if old(self)@.valid() {
                assert forall|k: int| 0 <= k < self@.cubes.len() implies (
                #[trigger] self@.cubes[k]).1.fits(self@.dims.len()) by {
                    assert(was[k].1.fits(self@.dims.len()));
                }
            }
        }
        Ok(
            cat7(
                "Deleted member '",
                member,
                "' from dimension '",
                name.as_str(),
                "' (data purged from ",
                decimal_text(touched as u128).as_str(),
                " cube(s)).",
            ),
        )
    }

    /// Makes a database of saved dimensions and cubes. A cube finds its
    /// dimensions again by their names, and every display order is rebuilt.
    pub fn restore(dimensions: Vec<Dimension<N>>, cubes: Vec<(String, Cube<N>)>) -> (r: Self)
        ensures
            r@ == CatalogModel::restored(dims_of(dimensions@), cubes_of(cubes@)),
            r@.valid(),
    {
        let ghost dims = dims_of(dimensions@);
        let ghost all = cubes_of(cubes@);
        let mut catalog = Catalog { dimensions, cubes: Vec::new() };
        let mut rest = cubes;
        let ghost mut n: int = 0;
        assert(catalog@.cubes =~= Seq::<(Seq<char>, CubeModel<N>)>::empty());
        assert(all.skip(0) =~= all);
        while rest.len() > 0
            invariant
                0 <= n <= all.len(),
                cubes_of(rest@) == all.skip(n),
                (catalog@.dims, catalog@.cubes) == attached(dims, all.take(n)),
                catalog@.valid(),
            decreases rest@.len(),
        {
            let ghost before = cubes_of(rest@);
            let (key, mut cube) = rest.remove(0);
            proof {
                assert(before.len() == all.len() - n);
                assert((key@, cube@) == before[0]);
                assert(cubes_of(rest@) =~= before.skip(1));
                assert(all.skip(n).skip(1) =~= all.skip(n + 1));
                assert(all.take(n + 1).drop_last() =~= all.take(n));
                n = n + 1;
            }
            let places = make_dimensions(&mut catalog.dimensions, &cube.dimension_names);
            cube.attach_dimensions(places);
            assert(cube@.fits(catalog.dimensions@.len()));
            put_cube(&mut catalog.cubes, key, cube);
        }
        assert(all.take(n) =~= all);
        let ghost made = catalog@.dims;
        let mut i: usize = 0;
        while i < catalog.dimensions.len()
            invariant
                i <= catalog.dimensions@.len(),
                made.len() == catalog.dimensions@.len(),
                catalog@.cubes == attached(dims, all).1,
                catalog@.valid(),
                forall|k: int| 0 <= k < i ==> #[trigger] catalog@.dims[k] == made[k].rebuilt(),
                forall|k: int| i <= k < made.len() ==> #[trigger] catalog@.dims[k] == made[k],
            decreases catalog.dimensions@.len() - i,
        {
            let ghost before = catalog@.dims;
            catalog.dimensions[i].refresh_display_order();
            assert(catalog@.dims =~= before.update(i as int, before[i as int].rebuilt()));
            i += 1;
        }
        assert(catalog@.dims =~= Seq::new(made.len(), |k: int| made[k].rebuilt()));
        catalog
    }
}

/// Owned copies of the strings.
fn own_texts(v: &[&str]) -> (r: Vec<String>)
    ensures
        texts(r@) == words(v@),
{
    let ghost all = words(v@);
    let mut out: Vec<String> = Vec::new();
    let mut i: usize = 0;
    assert(texts(out@) =~= all.take(0));
    while i < v.len()
        invariant
            i <= v@.len(),
            all == words(v@),
            texts(out@) == all.take(i as int),
        decreases v@.len() - i,
    {
        let ghost done = texts(out@);
        out.push(v[i].to_string());
        assert(texts(out@) =~= done.push(all[i as int]));
        assert(texts(out@) =~= all.take(i as int + 1));
        i += 1;
    }
    assert(all.take(i as int) =~= all);
    out
}

/// Puts a cube under a key.
fn put_cube<N: Number>(cubes: &mut Vec<(String, Cube<N>)>, key: String, cube: Cube<N>)
    ensures
        cubes_of(final(cubes)@) == put(cubes_of(old(cubes)@), key@, cube@),
        forall|count: nat|
            #![trigger cube@.fits(count)]
            cube@.fits(count) && (forall|i: int|
                0 <= i < old(cubes)@.len() ==> (#[trigger] cubes_of(old(cubes)@)[i]).1.fits(count))
                ==> forall|i: int|
                0 <= i < final(cubes)@.len() ==> (#[trigger] cubes_of(final(cubes)@)[i]).1.fits(
                    count,
                ),
{
    let ghost was = cubes_of(cubes@);
    let ghost name = key@;
    let ghost model = cube@;
    assert(keys(entries_of(cubes@)) =~= keys(was));
    match find_key(cubes, key.as_str()) {
        Some(i) => {
            cubes.set(i, (key, cube));
            assert(cubes_of(cubes@) =~= was.update(i as int, (name, model)));
        },
        None => {
            cubes.push((key, cube));
            assert(cubes_of(cubes@) =~= was.push((name, model)));
        },
    }
}

} // verus!
