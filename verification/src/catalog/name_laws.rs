//! What names mean in a database.

use crate::catalog::catalog::{count_with, dim_names, owner_of, CatalogModel};
use crate::catalog::laws::owner_knows;
use crate::cube::cube::CubeModel;
use crate::dimension::dimension::{with_leaves, DimensionModel};
use crate::dimension::hierarchy::HierarchyModel;
use crate::number::Number;
use crate::storage::id_map::in_turn;
use crate::storage::name_map::{keys, lookup_after_put, put};
use crate::text::{lowercase, place_but_case_finds, place_of, place_of_is_first, same_but_case};
use vstd::prelude::*;

verus! {

impl<N: Number> CatalogModel<N> {
    /// What a command names is the hierarchy of that name wherever a dimension has one,
    /// and else the default hierarchy of the dimension of that name. The dimension is
    /// made if it is not there; nothing else is.
    pub proof fn a_reference_means_what_it_names(self, reference: Seq<char>)
        ensures
            ({
                let (made, i, hierarchy, _) = self.reference_resolved(reference);
                let named = exists|d: int|
                    0 <= d < self.dims.len() && (#[trigger] self.dims[d]).hierarchy(
                        reference,
                    ) is Some;
                &&& 0 <= i < made.dims.len()
                &&& made.cubes == self.cubes
                &&& self.dims.len() <= made.dims.len()
                &&& forall|d: int|
                    0 <= d < self.dims.len() ==> #[trigger] made.dims[d] == self.dims[d]
                &&& named ==> made == self && self.dims[i].hierarchy(reference) is Some && hierarchy
                    == self.dims[i].hierarchy(reference)->0.name && self.reference_found(reference)
                    == Some((i, hierarchy))
                &&& !named ==> made.dims[i].name == reference && hierarchy
                    == made.dims[i].default_hierarchy
                &&& !named && dim_names(self.dims).contains(reference) ==> made == self
                    && self.reference_found(reference) == Some((i, hierarchy))
            }),
    {
        owner_knows(self.dims, reference);
        place_of_is_first(dim_names(self.dims), reference);
        let (made, i, hierarchy, _) = self.reference_resolved(reference);
        match owner_of(self.dims, reference) {
            Some(d) => {
                assert(self.dims[d].hierarchy(reference) is Some);
            },
            None => {
                match place_of(dim_names(self.dims), reference) {
                    Some(k) => {
                        assert(dim_names(self.dims)[k] == self.dims[k].name);
                    },
                    None => {
                        assert(made.dims[self.dims.len() as int].name == reference);
                    },
                }
            },
        }
    }

    /// A hierarchy that is created is one more of the dimension. It has no parents and
    /// no children in it yet. What was there is as it was, but for the answers that the
    /// cubes have kept.
    pub proof fn a_new_hierarchy_is_one_more(self, dimension: Seq<char>, hierarchy: Seq<char>)
        requires
            self.dim_place(dimension) is Some,
            0 <= self.dim_place(dimension)->0 < self.dims.len(),
        ensures
            ({
                let i = self.dim_place(dimension)->0;
                let (after, outcome) = self.hierarchy_created(dimension, hierarchy);
                let taken = exists|d: int|
                    0 <= d < self.dims.len() && (#[trigger] self.dims[d]).hierarchy(
                        hierarchy,
                    ) is Some;
                let (was, is) = (self.dims[i], after.dims[i]);
                &&& outcome is Ok == !taken
                &&& outcome is Err ==> after == self
                &&& outcome matches Ok(name) ==> name == was.name
                &&& outcome is Ok ==> {
                    &&& is.hierarchy(hierarchy) matches Some(h) && h.name == hierarchy && h.parent
                        == Map::<u32, u32>::empty() && h.children.dom() == Set::<u32>::empty()
                    &&& forall|other: Seq<char>|
                        lowercase(other) != lowercase(hierarchy) ==> #[trigger] is.hierarchy(other)
                            == was.hierarchy(other)
                    &&& is == (DimensionModel { hierarchies: is.hierarchies, ..was })
                    &&& after.dims.len() == self.dims.len()
                    &&& forall|d: int|
                        0 <= d < self.dims.len() && d != i ==> #[trigger] after.dims[d]
                            == self.dims[d]
                    &&& after.cubes.len() == self.cubes.len()
                    &&& forall|k: int|
                        0 <= k < self.cubes.len() ==> (#[trigger] after.cubes[k]).0
                            == self.cubes[k].0 && after.cubes[k].1.cells == self.cubes[k].1.cells
                            && after.cubes[k].1.dimensions == self.cubes[k].1.dimensions
                            && after.cubes[k].1.cache.dom() == Set::<Seq<u32>>::empty()
                }
            }),
    {
        let i = self.dim_place(dimension)->0;
        let (after, outcome) = self.hierarchy_created(dimension, hierarchy);
        let was = self.dims[i];
        owner_knows(self.dims, hierarchy);
        place_of_is_first(keys(was.hierarchies), lowercase(hierarchy));
        if outcome is Ok {
            let made = with_leaves(
                HierarchyModel::fresh(hierarchy),
                was.leaf_names,
                in_turn(was.leaves()),
            ).rebuilt();
            new_leaves_are_at_the_top(
                HierarchyModel::<N>::fresh(hierarchy),
                was.leaf_names,
                in_turn(was.leaves()),
            );
            assert(after.dims[i].hierarchies =~= put(
                was.hierarchies,
                lowercase(hierarchy),
                made,
            ));
            lookup_after_put(
                was.hierarchies,
                lowercase(hierarchy),
                made,
                lowercase(hierarchy),
            );
            assert forall|other: Seq<char>|
                lowercase(other) != lowercase(
                    hierarchy,
                ) implies #[trigger] after.dims[i].hierarchy(other) == was.hierarchy(other) by {
                lookup_after_put(was.hierarchies, lowercase(hierarchy), made, lowercase(other));
            }
            assert(made.children.dom() =~= Set::<u32>::empty());
            assert forall|k: int| 0 <= k < self.cubes.len() implies (
            #[trigger] after.cubes[k]).1.cache.dom() == Set::<Seq<u32>>::empty() by {
                assert(after.cubes[k].1.cache.dom() =~= Set::<Seq<u32>>::empty());
            }
        }
    }
}

/// Leaves that are made known are under nothing.
proof fn new_leaves_are_at_the_top<N: Number>(
    hierarchy: HierarchyModel<N>,
    leaf_names: Map<u32, Seq<char>>,
    ids: Seq<u32>,
)
    ensures
        with_leaves(hierarchy, leaf_names, ids).name == hierarchy.name,
        with_leaves(hierarchy, leaf_names, ids).parent == hierarchy.parent,
        with_leaves(hierarchy, leaf_names, ids).children == hierarchy.children,
    decreases ids.len(),
{
    if ids.len() > 0 {
        new_leaves_are_at_the_top(hierarchy, leaf_names, ids.drop_last());
    }
}

impl<N: Number> CatalogModel<N> {
    /// A dimension of exactly that name is found before any that differs in case.
    pub proof fn the_exact_name_is_found_first(self, i: int)
        requires
            0 <= i < self.dims.len(),
        ensures
            self.dim_place(self.dims[i].name) matches Some(k) && 0 <= k <= i && self.dims[k].name
                == self.dims[i].name,
    {
        let names = dim_names(self.dims);
        place_of_is_first(names, self.dims[i].name);
        assert(names[i] == self.dims[i].name);
        assert(names.contains(self.dims[i].name));
        let k = place_of(names, self.dims[i].name)->0;
        assert(names[k] == self.dims[k].name);
    }

    /// A column names a dimension wherever there is one of that name, and else the
    /// hierarchy that a command of that name is for.
    pub proof fn columns_name_what_commands_name(self, name: Seq<char>)
        ensures
            self.dim_place(name) matches Some(i) ==> self.reference_named(name) == Some(
                (self.dims[i].name, None::<Seq<char>>),
            ),
            self.dim_place(name) is None ==> match self.reference_found(name) {
                Some((i, hierarchy)) => self.reference_named(name) == Some(
                    (self.dims[i].name, Some(hierarchy)),
                ) && self.dims[i].hierarchy(name) is Some,
                None => self.reference_named(name) is None && forall|d: int|
                    0 <= d < self.dims.len() ==> (#[trigger] self.dims[d]).hierarchy(name) is None,
            },
    {
        owner_knows(self.dims, name);
    }
}

impl<N: Number> CatalogModel<N> {
    /// Deleting a member changes one dimension. The cubes keep all but cells and answers,
    /// and forget every answer. Where it fails, nothing changes.
    pub proof fn deleting_a_member_forgets_answers(
        self,
        dimension: Seq<char>,
        member: Seq<char>,
        k: int,
    )
        requires
            0 <= k < self.cubes.len(),
        ensures
            ({
                let (after, outcome) = self.member_deleted(dimension, member);
                let i = self.dim_place(dimension)->0;
                let (was, is) = (self.cubes[k].1, after.cubes[k].1);
                &&& outcome is Err ==> after == self
                &&& outcome is Ok ==> {
                    &&& self.dim_place(dimension) is Some
                    &&& after.dims.len() == self.dims.len()
                    &&& forall|d: int|
                        0 <= d < self.dims.len() && d != i ==> #[trigger] after.dims[d]
                            == self.dims[d]
                    &&& after.cubes.len() == self.cubes.len()
                    &&& after.cubes[k].0 == self.cubes[k].0
                    &&& is.cache.dom() == Set::<Seq<u32>>::empty()
                    &&& is.name == was.name && is.dimensions == was.dimensions
                        && is.dimension_names == was.dimension_names && is.measure_dimension
                        == was.measure_dimension && is.is_aggregating == was.is_aggregating
                }
            }),
    {
        let (after, outcome) = self.member_deleted(dimension, member);
        place_of_is_first(dim_names(self.dims), dimension);
        place_but_case_finds(dim_names(self.dims), dimension);
        if outcome is Ok {
            assert(after.cubes[k].1.cache.dom() =~= Set::<Seq<u32>>::empty());
        }
    }
}

/// A cube is counted with a dimension exactly if it has one of that name, in any case.
pub proof fn cubes_are_counted_with_their_dimensions<N: Number>(
    cubes: Seq<(Seq<char>, CubeModel<N>)>,
    key: Seq<char>,
    cube: CubeModel<N>,
    dimension: Seq<char>,
)
    ensures
        count_with(cubes, dimension) <= cubes.len(),
        count_with(cubes.push((key, cube)), dimension) == count_with(cubes, dimension) + (if exists|d: int|
            0 <= d < cube.dimension_names.len() && same_but_case(
                #[trigger] cube.dimension_names[d],
                dimension,
            ) {
            1int
        } else {
            0
        }),
    decreases cubes.len(),
{
    place_but_case_finds(cube.dimension_names, dimension);
    assert(cubes.push((key, cube)).drop_last() =~= cubes);
    if cubes.len() > 0 {
        cubes_are_counted_with_their_dimensions(cubes.drop_last(), key, cube, dimension);
    }
}

} // verus!
