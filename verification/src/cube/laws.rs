//! What holds of reading and writing cells.

use crate::cube::cube::{split, CubeModel, SplashMode};
use crate::cube::node::CellModel;
use crate::dimension::dimension::{each, name_in_any, DimensionModel};
use crate::dimension::hierarchy::HierarchyModel;
use crate::number::Number;
use crate::storage::name_map::{keys, lookup_after_put, lookup_found, put};
use crate::text::{lowercase, place_of, place_of_is_first};
use vstd::prelude::*;

verus! {

// ---------------------------------------------------------------------------
// Leaves
// ---------------------------------------------------------------------------

impl<N: Number> DimensionModel<N> {
    /// A new leaf is found in every hierarchy that had nothing of its name.
    pub proof fn new_leaf_is_found(self, hierarchy: Option<Seq<char>>, name: Seq<char>)
        requires
            self.resolved(hierarchy) is Some,
            self.id_in(hierarchy, name) is None,
            self.leaf(name) is None,
            self.id_in(None, name) is None,
        ensures
            self.leaf_added(name).0.id_in(hierarchy, name) == Some(self.leaf_added(name).1),
    {
        let key = lowercase(name);
        let (after, id) = self.leaf_added(name);
        let named = lowercase(self.hierarchy_named(hierarchy));
        place_of_is_first(keys(self.hierarchies), named);
        assert(keys(after.hierarchies) =~= keys(self.hierarchies));
        let p = place_of(keys(self.hierarchies), named)->0;
        let h = self.hierarchies[p].1;
        place_of_is_first(keys(h.members), key);
        assert(put(h.members, key, id) == h.members.push((key, id)));
        lookup_after_put(h.members, key, id, key);
    }

    /// A member that was added is found in the default hierarchy.
    pub proof fn added_leaf_is_found(self, name: Seq<char>)
        requires
            self.sound(),
        ensures
            self.leaf_added(name).0.id_in(None, name) == Some(self.leaf_added(name).1),
    {
        place_of_is_first(keys(self.hierarchies), lowercase(self.default_hierarchy));
        if self.leaf(name) is Some {
            self.a_leaf_has_one_id(name, self.place(self.default_hierarchy)->0);
        } else if self.id_in(None, name) is None {
            self.new_leaf_is_found(None, name);
        }
    }

    /// What is found before a leaf is added, is found after it.
    pub proof fn adding_a_leaf_hides_nothing(
        self,
        name: Seq<char>,
        hierarchy: Option<Seq<char>>,
        member: Seq<char>,
    )
        requires
            self.sound(),
            self.next_id < u32::MAX,
        ensures
            self.leaf_added(name).0.resolved(hierarchy) is Some == self.resolved(hierarchy) is Some,
            self.id_in(hierarchy, member) is Some ==> self.leaf_added(name).0.id_in(
                hierarchy,
                member,
            ) == self.id_in(hierarchy, member),
            self.names_leaf(member) ==> self.leaf_added(name).0.names_leaf(member),
    {
        let key = lowercase(name);
        let (after, id) = self.leaf_added(name);
        assert(keys(after.hierarchies) =~= keys(self.hierarchies));
        if self.leaf(name) is None && self.id_in(None, name) is None {
            lookup_after_put(self.leaf_ids, key, id, lowercase(member));
            place_of_is_first(keys(self.leaf_ids), key);
            assert(put(self.leaf_ids, key, id) == after.leaf_ids);
            assert forall|p: int| 0 <= p < self.hierarchies.len() implies (
            #[trigger] after.hierarchies[p]).1.id_of(member) == (if lowercase(member) == key
                && self.hierarchies[p].1.id_of(name) is None {
                Some(id)
            } else {
                self.hierarchies[p].1.id_of(member)
            }) by {
                let h = self.hierarchies[p].1;
                if h.id_of(name) is None {
                    place_of_is_first(keys(h.members), key);
                    assert(put(h.members, key, id) == h.members.push((key, id)));
                    lookup_after_put(h.members, key, id, lowercase(member));
                }
            }
            let named = lowercase(self.hierarchy_named(hierarchy));
            place_of_is_first(keys(self.hierarchies), named);
            let default_named = lowercase(self.default_hierarchy);
            place_of_is_first(keys(self.hierarchies), default_named);
            match place_of(keys(self.hierarchies), named) {
                Some(p) => {
                    assert(after.hierarchies[p].1.id_of(member) == after.id_in(hierarchy, member));
                },
                None => {},
            }
            let d = place_of(keys(self.hierarchies), default_named)->0;
            assert(after.hierarchies[d].1.id_of(member) == after.id_in(None, member));
        }
    }
}

/// A leaf more gives no other id another name.
proof fn names_stay<N: Number>(
    hierarchies: Seq<(Seq<char>, HierarchyModel<N>)>,
    name: Seq<char>,
    new: u32,
    id: u32,
)
    requires
        id != new,
    ensures
        name_in_any(each(hierarchies, |h: HierarchyModel<N>| h.with_leaf(name, new)), id)
            == name_in_any(hierarchies, id),
    decreases hierarchies.len(),
{
    if hierarchies.len() > 0 {
        let rest = hierarchies.drop_last();
        let change = |h: HierarchyModel<N>| h.with_leaf(name, new);
        names_stay(rest, name, new, id);
        assert(each(hierarchies, change).drop_last() =~= each(rest, change));
        let h = hierarchies.last().1;
        let now = h.with_leaf(name, new);
        if h.id_of(name) is None {
            assert(now.members.drop_last() =~= h.members);
        }
        assert(now.name_of(id) == h.name_of(id));
    }
}

impl<N: Number> DimensionModel<N> {
    /// Adding a leaf gives no id that is in use another name.
    pub proof fn adding_a_leaf_renames_nothing(self, name: Seq<char>, id: u32)
        requires
            id < self.next_id,
        ensures
            self.leaf_added(name).0.name_of(id) == self.name_of(id),
    {
        names_stay(self.hierarchies, name, self.next_id, id);
    }
}

/// The coordinate names no hierarchy.
pub open spec fn is_unqualified(coord: Seq<char>) -> bool {
    split(coord) == (None::<Seq<char>>, coord)
}

// ---------------------------------------------------------------------------
// Cells
// ---------------------------------------------------------------------------

impl<N: Number> CubeModel<N> {
    /// Every dimension is sound and has ids left for `more` members.
    pub open spec fn room_for(dims: Seq<DimensionModel<N>>, more: nat) -> bool {
        forall|d: int|
            0 <= d < dims.len() ==> (#[trigger] dims[d]).sound() && dims[d].next_id + more
                < u32::MAX
    }

    /// Adding the leaves of a cell keeps the dimensions sound, and hides
    /// nothing that was found before.
    pub proof fn leaves_added_steps(
        self,
        dims: Seq<DimensionModel<N>>,
        members: Seq<Seq<char>>,
        n: int,
        more: nat,
        i: int,
        member: Seq<char>,
    )
        requires
            self.fits(dims.len()),
            members.len() <= self.dimensions.len(),
            Self::room_for(dims, members.len() + more),
            0 <= n <= members.len(),
            0 <= i < self.dimensions.len(),
        ensures
            self.leaves_added(dims, members.take(n)).0.len() == dims.len(),
            self.leaves_added(dims, members.take(n)).1.len() == n,
            Self::room_for(
                self.leaves_added(dims, members.take(n)).0,
                (members.len() - n + more) as nat,
            ),
            self.dim(dims, i).names_leaf(member) ==> self.dim(
                self.leaves_added(dims, members.take(n)).0,
                i,
            ).names_leaf(member),
        decreases n,
    {
        let upto = members.take(n);
        if n > 0 {
            assert(upto.drop_last() =~= members.take(n - 1));
            self.leaves_added_steps(dims, members, n - 1, more, i, member);
            let (before, coords) = self.leaves_added(dims, members.take(n - 1));
            let slot = self.dimensions[n - 1] as int;
            assert(self.dimensions[n - 1] < dims.len());
            let after = self.leaves_added(dims, upto).0;
            assert(before[slot].sound());
            before[slot].adding_a_leaf_keeps_sound(upto.last());
            before[slot].adding_a_leaf_hides_nothing(upto.last(), None, member);
            assert(self.dimensions[i] < dims.len());
            assert forall|d: int| 0 <= d < after.len() implies (#[trigger] after[d]).sound()
                && after[d].next_id + (members.len() - n + more) < u32::MAX by {
                assert(before[d].sound());
            }
        } else {
            assert(upto =~= Seq::<Seq<char>>::empty());
        }
    }

    /// The leaves of a cell are leaves of their dimensions, and are found under
    /// their names.
    pub proof fn leaves_added_are_found(
        self,
        dims: Seq<DimensionModel<N>>,
        members: Seq<Seq<char>>,
        n: int,
        i: int,
    )
        requires
            self.fits(dims.len()),
            members.len() <= self.dimensions.len(),
            Self::room_for(dims, members.len()),
            0 <= i < n <= members.len(),
        ensures
            self.dim(self.leaves_added(dims, members.take(n)).0, i).id_in(None, members[i]) == Some(
                self.leaves_added(dims, members.take(n)).1[i],
            ),
        decreases n,
    {
        let upto = members.take(n);
        assert(upto.drop_last() =~= members.take(n - 1));
        self.leaves_added_steps(dims, members, n - 1, 0, i, members[i]);
        let (before, coords) = self.leaves_added(dims, members.take(n - 1));
        let slot = self.dimensions[n - 1] as int;
        assert(self.dimensions[n - 1] < dims.len());
        assert(self.dimensions[i] < dims.len());
        assert(before[slot].sound());
        if i == n - 1 {
            before[slot].added_leaf_is_found(members[i]);
        } else {
            self.leaves_added_are_found(dims, members, n - 1, i);
            before[slot].adding_a_leaf_hides_nothing(upto.last(), None, members[i]);
        }
    }

    pub proof fn exact_ids_of(
        self,
        dims: Seq<DimensionModel<N>>,
        members: Seq<Seq<char>>,
        ids: Seq<u32>,
        n: int,
    )
        requires
            0 <= n <= members.len(),
            ids.len() == members.len(),
            forall|i: int|
                0 <= i < members.len() ==> self.dim(dims, i).id_in(
                    split(#[trigger] members[i]).0,
                    split(members[i]).1,
                ) == Some(ids[i]),
        ensures
            self.exact_ids(dims, members.take(n)) == Some(ids.take(n)),
        decreases n,
    {
        let upto = members.take(n);
        if n > 0 {
            assert(upto.drop_last() =~= members.take(n - 1));
            self.exact_ids_of(dims, members, ids, n - 1);
            assert(upto.last() == members[n - 1]);
            assert(ids.take(n - 1).push(ids[n - 1]) =~= ids.take(n));
        } else {
            assert(upto =~= Seq::<Seq<char>>::empty());
            assert(ids.take(0) =~= Seq::<u32>::empty());
        }
    }

    /// A cell that was written at members without qualifiers is read back, and no
    /// other cell has changed.
    pub proof fn written_cell_is_read(
        self,
        dims: Seq<DimensionModel<N>>,
        members: Seq<Seq<char>>,
        cell: CellModel<N>,
    )
        requires
            self.fits(dims.len()),
            members.len() == self.dimensions.len(),
            Self::room_for(dims, members.len()),
            forall|i: int| 0 <= i < members.len() ==> is_unqualified(#[trigger] members[i]),
        ensures
            ({
                let (after, coords) = self.leaves_added(dims, members);
                &&& self.written(coords, cell).cell_at(after, members) == Some(cell)
                &&& forall|other: Seq<u32>|
                    other != coords ==> (#[trigger] self.written(
                        coords,
                        cell,
                    ).cells.contains_key(other) == self.cells.contains_key(other)) && self.written(
                        coords,
                        cell,
                    ).cells[other] == self.cells[other]
            }),
    {
        let (after, coords) = self.leaves_added(dims, members);
        let n = members.len() as int;
        assert(members.take(n) =~= members);
        if n == 0 {
            assert(coords =~= Seq::<u32>::empty());
        } else {
            self.leaves_added_steps(dims, members, n, 0, 0, members[0]);
        }
        assert forall|i: int| 0 <= i < members.len() implies self.dim(after, i).id_in(
            split(#[trigger] members[i]).0,
            split(members[i]).1,
        ) == Some(coords[i]) by {
            assert(is_unqualified(members[i]));
            self.leaves_added_are_found(dims, members, n, i);
        }
        let cube = self.written(coords, cell);
        assert forall|i: int| 0 <= i < members.len() implies cube.dim(after, i).id_in(
            split(#[trigger] members[i]).0,
            split(members[i]).1,
        ) == Some(coords[i]) by {
            assert(cube.dim(after, i) == self.dim(after, i));
        }
        cube.exact_ids_of(after, members, coords, n);
        assert(coords.take(n) =~= coords);
    }

    /// Cells are written at leaves: each coordinate that names no aggregate of the
    /// default hierarchy is then a leaf of its dimension.
    pub proof fn cells_are_written_at_leaves(
        self,
        dims: Seq<DimensionModel<N>>,
        members: Seq<Seq<char>>,
        i: int,
    )
        requires
            self.fits(dims.len()),
            members.len() <= self.dimensions.len(),
            Self::room_for(dims, members.len()),
            0 <= i < members.len(),
            self.dim(dims, i).names_leaf(members[i]),
        ensures
            self.dim(self.leaves_added(dims, members).0, i).leaf_names.contains_key(
                self.leaves_added(dims, members).1[i],
            ),
    {
        assert(members.take(members.len() as int) =~= members);
        self.coordinates_stay_leaves(dims, members, members.len() as int, i);
    }

    proof fn coordinates_stay_leaves(
        self,
        dims: Seq<DimensionModel<N>>,
        members: Seq<Seq<char>>,
        n: int,
        i: int,
    )
        requires
            self.fits(dims.len()),
            members.len() <= self.dimensions.len(),
            Self::room_for(dims, members.len()),
            0 <= i < n <= members.len(),
            self.dim(dims, i).names_leaf(members[i]),
        ensures
            self.dim(self.leaves_added(dims, members.take(n)).0, i).leaf_names.contains_key(
                self.leaves_added(dims, members.take(n)).1[i],
            ),
        decreases n,
    {
        let upto = members.take(n);
        assert(upto.drop_last() =~= members.take(n - 1));
        self.leaves_added_steps(dims, members, n - 1, 0, i, members[i]);
        let (before, coords) = self.leaves_added(dims, members.take(n - 1));
        let slot = self.dimensions[n - 1] as int;
        assert(self.dimensions[n - 1] < dims.len());
        assert(self.dimensions[i] < dims.len());
        assert(before[slot].sound());
        before[slot].adding_a_leaf_keeps_sound(upto.last());
        if i < n - 1 {
            self.coordinates_stay_leaves(dims, members, n - 1, i);
        }
    }

    /// Writing a cell gives no id that is in use another name.
    pub proof fn written_ids_keep_their_names(
        self,
        dims: Seq<DimensionModel<N>>,
        members: Seq<Seq<char>>,
        d: int,
        id: u32,
    )
        requires
            self.fits(dims.len()),
            members.len() <= self.dimensions.len(),
            Self::room_for(dims, members.len()),
            0 <= d < dims.len(),
            id < dims[d].next_id,
        ensures
            self.leaves_added(dims, members).0[d].name_of(id) == dims[d].name_of(id),
            id < self.leaves_added(dims, members).0[d].next_id,
        decreases members.len(),
    {
        if members.len() > 0 {
            let n = members.len() - 1;
            let rest = members.drop_last();
            assert(self.dimensions[n] < dims.len());
            assert(dims[d].sound());
            assert(members.take(n) =~= rest);
            self.leaves_added_steps(dims, members, n, 0, 0, members[0]);
            self.written_ids_keep_their_names(dims, rest, d, id);
            let before = self.leaves_added(dims, rest).0;
            let slot = self.dimensions[n] as int;
            assert(before[d].sound());
            before[d].adding_a_leaf_renames_nothing(members.last(), id);
        }
    }

    /// Writing a cell keeps the dimensions sound.
    pub proof fn writing_keeps_dimensions_sound(
        self,
        dims: Seq<DimensionModel<N>>,
        members: Seq<Seq<char>>,
        d: int,
    )
        requires
            self.fits(dims.len()),
            members.len() <= self.dimensions.len(),
            Self::room_for(dims, members.len()),
            0 <= d < dims.len(),
        ensures
            self.leaves_added(dims, members).0[d].sound(),
    {
        assert(members.take(members.len() as int) =~= members);
        if members.len() > 0 {
            self.leaves_added_steps(dims, members, members.len() as int, 0, 0, members[0]);
            assert(self.leaves_added(dims, members).0[d].sound());
        } else {
            assert(dims[d].sound());
        }
    }
}

// ---------------------------------------------------------------------------
// Answers that are kept
// ---------------------------------------------------------------------------

impl<N: Number> DimensionModel<N> {
    /// An id has the same leaves below it through every hierarchy that knows
    /// it.
    pub proof fn an_id_means_the_same_everywhere(
        self,
        hierarchy: Option<Seq<char>>,
        member: Seq<char>,
        other_hierarchy: Option<Seq<char>>,
        other_member: Seq<char>,
    )
        requires
            self.sound(),
            self.id_in(hierarchy, member) is Some,
            self.id_in(hierarchy, member) == self.id_in(other_hierarchy, other_member),
        ensures
            self.leaf_weights(hierarchy, member) == self.leaf_weights(
                other_hierarchy,
                other_member,
            ),
    {
        let a = lowercase(self.hierarchy_named(hierarchy));
        let b = lowercase(self.hierarchy_named(other_hierarchy));
        place_of_is_first(keys(self.hierarchies), a);
        place_of_is_first(keys(self.hierarchies), b);
        let p = place_of(keys(self.hierarchies), a)->0;
        let q = place_of(keys(self.hierarchies), b)->0;
        let id = self.id_in(hierarchy, member)->0;
        let x = self.hierarchies[p].1;
        let y = self.hierarchies[q].1;
        if p != q {
            lookup_found(x.members, lowercase(member));
            lookup_found(y.members, lowercase(other_member));
            let i = choose|i: int|
                0 <= i < x.members.len() && #[trigger] x.members[i] == (lowercase(member), id);
            let j = choose|j: int|
                0 <= j < y.members.len() && #[trigger] y.members[j] == (
                    lowercase(other_member),
                    id,
                );
            if p < q {
                assert(self.hierarchies[p].1.members[i].1 == self.hierarchies[q].1.members[j].1);
            } else {
                assert(self.hierarchies[q].1.members[j].1 == self.hierarchies[p].1.members[i].1);
            }
            assert(self.leaves().contains(id));
            x.leaf_is_below_itself(self.leaves(), id);
            y.leaf_is_below_itself(self.leaves(), id);
        }
    }
}

impl<N: Number> CubeModel<N> {
    /// Each answer that is kept is what the cells add up to, for all members
    /// that are known in the hierarchies they are asked for in.
    pub open spec fn cache_holds(self, dims: Seq<DimensionModel<N>>) -> bool {
        forall|members: Seq<Seq<char>>|
            members.len() == self.dimensions.len() && (#[trigger] self.exact_ids(
                dims,
                members,
            ) matches Some(ids) && self.cache.contains_key(ids)) ==> self.cache[self.exact_ids(
                dims,
                members,
            )->0] == self.computed(dims, members)
    }

    proof fn exact_ids_are(self, dims: Seq<DimensionModel<N>>, members: Seq<Seq<char>>, i: int)
        requires
            self.exact_ids(dims, members) is Some,
            0 <= i < members.len(),
        ensures
            self.exact_ids(dims, members)->0.len() == members.len(),
            self.dim(dims, i).id_in(split(members[i]).0, split(members[i]).1) == Some(
                self.exact_ids(dims, members)->0[i],
            ),
        decreases members.len(),
    {
        let rest = members.drop_last();
        assert(self.exact_ids(dims, rest) is Some);
        if i < rest.len() {
            assert(rest[i] == members[i]);
            self.exact_ids_are(dims, rest, i);
        } else if rest.len() > 0 {
            self.exact_ids_are(dims, rest, 0);
        } else {
            assert(self.exact_ids(dims, rest) == Some(Seq::<u32>::empty()));
        }
    }

    /// Members with the same ids have the same sum, whatever hierarchies they
    /// are named through.
    pub proof fn same_ids_same_sum(
        self,
        dims: Seq<DimensionModel<N>>,
        members: Seq<Seq<char>>,
        others: Seq<Seq<char>>,
    )
        requires
            self.fits(dims.len()),
            members.len() <= self.dimensions.len(),
            forall|d: int| 0 <= d < dims.len() ==> (#[trigger] dims[d]).sound(),
            self.exact_ids(dims, members) is Some,
            self.exact_ids(dims, members) == self.exact_ids(dims, others),
            members.len() == others.len(),
        ensures
            self.computed(dims, members) == self.computed(dims, others),
    {
        let a = self.resolutions(dims, members);
        let b = self.resolutions(dims, others);
        assert forall|i: int| 0 <= i < members.len() implies a[i] == b[i] by {
            self.exact_ids_are(dims, members, i);
            self.exact_ids_are(dims, others, i);
            assert(self.dimensions[i] < dims.len());
            let dim = self.dim(dims, i);
            assert(dims[self.dimensions[i] as int].sound());
            dim.an_id_means_the_same_everywhere(
                split(members[i]).0,
                split(members[i]).1,
                split(others[i]).0,
                split(others[i]).1,
            );
        }
        assert(a =~= b);
    }

    /// The answer to a question is what the cells add up to, kept or not, and
    /// nought for members that are not known in the hierarchies they are asked
    /// for in; and what is kept stays right.
    pub proof fn kept_answers_are_right(self, dims: Seq<DimensionModel<N>>, members: Seq<Seq<char>>)
        requires
            self.fits(dims.len()),
            members.len() == self.dimensions.len(),
            forall|d: int| 0 <= d < dims.len() ==> (#[trigger] dims[d]).sound(),
            self.cache_holds(dims),
        ensures
            self.consolidated(dims, members).1 == (if self.exact_ids(dims, members) is Some {
                self.computed(dims, members)
            } else {
                N::zero_spec()
            }),
            self.consolidated(dims, members).0.cache_holds(dims),
            self.consolidated(dims, members).0.cells == self.cells,
    {
        let ids = self.exact_ids(dims, members)->0;
        let after = self.consolidated(dims, members).0;
        assert forall|others: Seq<Seq<char>>|
            others.len() == after.dimensions.len() && (#[trigger] after.exact_ids(
                dims,
                others,
            ) matches Some(found) && after.cache.contains_key(
                found,
            )) implies after.cache[after.exact_ids(dims, others)->0] == after.computed(
            dims,
            others,
        ) by {
            self.exact_ids_alike(after, dims, others);
            assert(after.resolutions(dims, others) =~= self.resolutions(dims, others));
            if self.exact_ids(dims, members) is Some && self.exact_ids(dims, others)->0 == ids {
                self.same_ids_same_sum(dims, members, others);
            }
        }
    }

    /// A question changes the answer to no other.
    pub proof fn questions_do_not_interfere(
        self,
        dims: Seq<DimensionModel<N>>,
        members: Seq<Seq<char>>,
        others: Seq<Seq<char>>,
    )
        requires
            self.fits(dims.len()),
            members.len() == self.dimensions.len(),
            others.len() == self.dimensions.len(),
            forall|d: int| 0 <= d < dims.len() ==> (#[trigger] dims[d]).sound(),
            self.cache_holds(dims),
        ensures
            self.consolidated(dims, members).0.consolidated(dims, others).1 == self.consolidated(
                dims,
                others,
            ).1,
    {
        let after = self.consolidated(dims, members).0;
        self.kept_answers_are_right(dims, members);
        self.kept_answers_are_right(dims, others);
        after.kept_answers_are_right(dims, others);
        self.exact_ids_alike(after, dims, others);
        assert(after.resolutions(dims, others) =~= self.resolutions(dims, others));
    }

    proof fn exact_ids_alike(self, other: Self, dims: Seq<DimensionModel<N>>, members: Seq<Seq<char>>)
        requires
            self.dimensions == other.dimensions,
        ensures
            self.exact_ids(dims, members) == other.exact_ids(dims, members),
        decreases members.len(),
    {
        if members.len() > 0 {
            self.exact_ids_alike(other, dims, members.drop_last());
        }
    }

    /// After a cell was written nothing is kept that could be out of date.
    pub proof fn writing_forgets_answers(
        self,
        dims: Seq<DimensionModel<N>>,
        coords: Seq<u32>,
        cell: CellModel<N>,
    )
        ensures
            self.written(coords, cell).cache_holds(dims),
    {
    }

    /// After a value was splashed nothing is kept that could be out of date.
    pub proof fn splashing_forgets_answers(
        self,
        dims: Seq<DimensionModel<N>>,
        members: Seq<Seq<char>>,
        value: N,
        mode: SplashMode,
    )
        requires
            self.splashed(dims, members, value, mode).2 is Ok,
        ensures
            self.splashed(dims, members, value, mode).0.cache_holds(
                self.splashed(dims, members, value, mode).1,
            ),
    {
    }
}

} // verus!
