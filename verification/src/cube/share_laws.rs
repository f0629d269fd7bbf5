//! Where a number goes that is spread over leaves.

use crate::cube::cube::{allocated, number_at, product, split, total_square, CubeModel, SplashMode};
use crate::cube::laws::is_unqualified;
use crate::cube::node::CellModel;
use crate::cube::splash_laws::{
    counted, counted_all, exact_arithmetic, places_distinct, product_places_distinct,
    sum_is_counted,
};
use crate::cube::sum_laws::{crossings_are_let_through, filters_by, lists_by, weight_product};
use crate::dimension::dimension::DimensionModel;
use crate::number::{Number, Whole};
use crate::storage::name_map::keys;
use crate::storage::sparse_store::admits;
use crate::cube::slice::ids_let_through;
use crate::text::{lowercase, place_of_is_first};
use vstd::prelude::*;

verus! {

/// The order of the operands makes no difference.
#[verifier::opaque]
pub open spec fn commutative_arithmetic<N: Number>() -> bool {
    &&& forall|a: N, b: N| #[trigger] a.plus_spec(b) == b.plus_spec(a)
    &&& forall|a: N, b: N| #[trigger] a.times_spec(b) == b.times_spec(a)
}

/// The arithmetic is exact and commutes.
#[verifier::opaque]
pub open spec fn regular_arithmetic<N: Number>() -> bool {
    exact_arithmetic::<N>() && commutative_arithmetic::<N>()
}

pub proof fn plus_commutes<N: Number>(a: N, b: N)
    requires
        regular_arithmetic::<N>(),
    ensures
        a.plus_spec(b) == b.plus_spec(a),
{
    reveal(regular_arithmetic);
    reveal(commutative_arithmetic);
}

pub proof fn times_commutes<N: Number>(a: N, b: N)
    requires
        regular_arithmetic::<N>(),
    ensures
        a.times_spec(b) == b.times_spec(a),
{
    reveal(regular_arithmetic);
    reveal(commutative_arithmetic);
}

pub proof fn plus_groups<N: Number>(a: N, b: N, c: N)
    requires
        regular_arithmetic::<N>(),
    ensures
        a.plus_spec(b).plus_spec(c) == a.plus_spec(b.plus_spec(c)),
{
    reveal(regular_arithmetic);
}

pub proof fn times_groups<N: Number>(a: N, b: N, c: N)
    requires
        regular_arithmetic::<N>(),
    ensures
        a.times_spec(b).times_spec(c) == a.times_spec(b.times_spec(c)),
{
    reveal(regular_arithmetic);
}

pub proof fn times_goes_into_sums<N: Number>(a: N, b: N, c: N)
    requires
        regular_arithmetic::<N>(),
    ensures
        a.times_spec(b.plus_spec(c)) == a.times_spec(b).plus_spec(a.times_spec(c)),
{
    reveal(regular_arithmetic);
}

pub proof fn nought_and_one<N: Number>(a: N)
    requires
        regular_arithmetic::<N>(),
    ensures
        a.times_spec(N::zero_spec()) == N::zero_spec(),
        N::zero_spec().plus_spec(a) == a,
        a.plus_spec(N::zero_spec()) == a,
        a.times_spec(N::one_spec()) == a,
{
    reveal(regular_arithmetic);
}

/// The order of the operands makes no difference to whole numbers.
pub proof fn whole_arithmetic_commutes()
    ensures
        commutative_arithmetic::<Whole>(),
{
    reveal(commutative_arithmetic);
    assert forall|a: Whole, b: Whole| #[trigger] a.times_spec(b) == b.times_spec(a) by {
        assert(a.0 * b.0 == b.0 * a.0) by (nonlinear_arith);
    }
}

// ---------------------------------------------------------------------------
// Cells
// ---------------------------------------------------------------------------

/// The path is that of a part.
pub open spec fn is_place<N>(parts: Seq<(Seq<u32>, N)>, path: Seq<u32>) -> bool {
    exists|i: int| 0 <= i < parts.len() && (#[trigger] parts[i]).0 == path
}

/// Cells at no part stay as they are.
proof fn other_cells_stay<N: Number>(
    cells: Map<Seq<u32>, CellModel<N>>,
    parts: Seq<(Seq<u32>, N)>,
    scale: N,
    mode: SplashMode,
    path: Seq<u32>,
)
    requires
        !is_place(parts, path),
    ensures
        allocated(cells, parts, scale, mode).contains_key(path) == cells.contains_key(path),
        allocated(cells, parts, scale, mode)[path] == cells[path],
    decreases parts.len(),
{
    if parts.len() > 0 {
        let rest = parts.drop_last();
        if is_place(rest, path) {
            let i = choose|i: int| 0 <= i < rest.len() && (#[trigger] rest[i]).0 == path;
            assert(parts[i].0 == path);
        }
        other_cells_stay(cells, rest, scale, mode, path);
        assert(parts[parts.len() - 1].0 != path);
    }
}

/// Each part holds the scale times its weight, on top of what was there where it is
/// added.
proof fn parts_hold_shares<N: Number>(
    cells: Map<Seq<u32>, CellModel<N>>,
    parts: Seq<(Seq<u32>, N)>,
    scale: N,
    mode: SplashMode,
    i: int,
)
    requires
        places_distinct(parts),
        0 <= i < parts.len(),
    ensures
        allocated(cells, parts, scale, mode).contains_key(parts[i].0),
        allocated(cells, parts, scale, mode)[parts[i].0] == CellModel::Numeric(
            match mode {
                SplashMode::Replace => scale.times_spec(parts[i].1),
                SplashMode::Add => number_at(cells, parts[i].0).plus_spec(
                    scale.times_spec(parts[i].1),
                ),
            },
        ),
    decreases parts.len(),
{
    let rest = parts.drop_last();
    let last = parts.len() - 1;
    assert forall|a: int, b: int| 0 <= a < b < rest.len() implies (#[trigger] rest[a]).0 != (
    #[trigger] rest[b]).0 by {
        assert(parts[a].0 != parts[b].0);
    }
    if i < last {
        parts_hold_shares(cells, rest, scale, mode, i);
        assert(rest[i] == parts[i]);
        assert(parts[i].0 != parts[last].0);
    } else {
        if is_place(rest, parts[last].0) {
            let a = choose|a: int| 0 <= a < rest.len() && (#[trigger] rest[a]).0 == parts[last].0;
            assert(parts[a].0 != parts[last].0);
        }
        other_cells_stay(cells, rest, scale, mode, parts[last].0);
    }
}

/// Sums of two terms can be added term by term.
proof fn terms_regroup<N: Number>(s: N, t: N, x: N, y: N)
    requires
        regular_arithmetic::<N>(),
    ensures
        s.plus_spec(t).plus_spec(x.plus_spec(y)) == s.plus_spec(x).plus_spec(t.plus_spec(y)),
{
    plus_groups(s, t, x.plus_spec(y));
    plus_groups(t, x, y);
    plus_commutes(t, x);
    plus_groups(x, t, y);
    plus_groups(s, x, t.plus_spec(y));
}

proof fn sum_counts<N: Number>(a: N, b: N, c: N)
    requires
        regular_arithmetic::<N>(),
    ensures
        a.plus_spec(b).times_spec(c) == a.times_spec(c).plus_spec(b.times_spec(c)),
{
    times_commutes(a.plus_spec(b), c);
    times_goes_into_sums(c, a, b);
    times_commutes(c, a);
    times_commutes(c, b);
}

/// What is added to the cells is added to what they count.
proof fn additions_add_up<N: Number>(
    cells: Map<Seq<u32>, CellModel<N>>,
    after: Map<Seq<u32>, CellModel<N>>,
    parts: Seq<(Seq<u32>, N)>,
    scale: N,
)
    requires
        regular_arithmetic::<N>(),
        forall|i: int|
            0 <= i < parts.len() ==> after.contains_key((#[trigger] parts[i]).0)
                && after[parts[i].0] == CellModel::Numeric(
                number_at(cells, parts[i].0).plus_spec(scale.times_spec(parts[i].1)),
            ),
    ensures
        counted_all(after, parts) == counted_all(cells, parts).plus_spec(
            scale.times_spec(total_square(parts)),
        ),
    decreases parts.len(),
{
    if parts.len() > 0 {
        let rest = parts.drop_last();
        assert forall|i: int| 0 <= i < rest.len() implies after.contains_key(
            (#[trigger] rest[i]).0,
        ) && after[rest[i].0] == CellModel::Numeric(
            number_at(cells, rest[i].0).plus_spec(scale.times_spec(rest[i].1)),
        ) by {
            assert(rest[i] == parts[i]);
        }
        additions_add_up(cells, after, rest, scale);
        let (coords, weight) = parts[parts.len() - 1];
        let number = number_at(cells, coords);
        let share = scale.times_spec(weight);
        let square = weight.times_spec(weight);
        sum_counts(number, share, weight);
        times_groups(scale, weight, weight);
        assert(counted(after, coords, weight) == number.plus_spec(share).times_spec(weight));
        times_commutes(N::zero_spec(), weight);
        nought_and_one(weight);
        assert(counted(cells, coords, weight) == number.times_spec(weight));
        terms_regroup(
            counted_all(cells, rest),
            scale.times_spec(total_square(rest)),
            number.times_spec(weight),
            scale.times_spec(square),
        );
        times_goes_into_sums(scale, total_square(rest), square);
    } else {
        nought_and_one(scale);
        nought_and_one(N::zero_spec());
    }
}

// ---------------------------------------------------------------------------
// Cubes
// ---------------------------------------------------------------------------

impl<N: Number> CubeModel<N> {
    /// The cube has each dimension once, and each coordinate reaches leaves or will
    /// be one, for which there are ids left.
    pub open spec fn takes(self, dims: Seq<DimensionModel<N>>, members: Seq<Seq<char>>) -> bool {
        &&& self.fits(dims.len())
        &&& self.dimensions.no_duplicates()
        &&& members.len() == self.dimensions.len()
        &&& Self::room_for(dims, 1)
        &&& forall|i: int| 0 <= i < members.len() ==> self.reaches(dims, i, #[trigger] members[i])
    }

    /// One of the coordinates names an aggregate.
    pub open spec fn at_aggregate(self, dims: Seq<DimensionModel<N>>, members: Seq<Seq<char>>) -> bool {
        exists|i: int| 0 <= i < members.len() && #[trigger] self.names_aggregate(dims, members, i)
    }

    /// The weight by which the coordinates of leaves count at the members.
    pub open spec fn weight_at(
        self,
        dims: Seq<DimensionModel<N>>,
        members: Seq<Seq<char>>,
        path: Seq<u32>,
    ) -> N {
        weight_product(
            filters_by(self.weights_below(dims, members)),
            path,
            members.len() as int,
        )
    }

    /// What a number is spread over: the leaves below the members.
    proof fn spread_parts(self, dims: Seq<DimensionModel<N>>, members: Seq<Seq<char>>)
        requires
            exact_arithmetic::<N>(),
            self.takes(dims, members),
            self.spread(dims, members).1 is Ok,
        ensures
            ({
                let (after, outcome) = self.spread(dims, members);
                let (lists, any) = outcome->Ok_0;
                let parts = product(lists);
                &&& any == self.at_aggregate(dims, members)
                &&& lists == self.resolutions(after, members)
                &&& places_distinct(parts)
                &&& forall|i: int|
                    0 <= i < parts.len() ==> self.below(after, members, (#[trigger] parts[i]).0)
                        && parts[i].1 == self.weight_at(after, members, parts[i].0)
                &&& forall|path: Seq<u32>| #[trigger]
                    self.below(after, members, path) ==> is_place(parts, path)
            }),
    {
        let n = members.len() as int;
        assert(members.take(n) =~= members);
        self.spread_is_resolved(dims, members, n);
        let (after, outcome) = self.spread(dims, members);
        let (lists, any) = outcome->Ok_0;
        let weights = self.weights_below(after, members);
        assert(lists =~= self.resolutions(after, members));
        assert(lists =~= lists_by(weights));
        assert(weights.take(n) =~= weights);
        product_places_distinct(lists);
        crossings_are_let_through(weights, n);
        let parts = product(lists);
        assert forall|i: int| 0 <= i < parts.len() implies self.below(
            after,
            members,
            (#[trigger] parts[i]).0,
        ) && parts[i].1 == self.weight_at(after, members, parts[i].0) by {
            self.below_is_let_through(after, members, parts[i].0);
        }
        assert forall|path: Seq<u32>| #[trigger] self.below(after, members, path) implies is_place(
            parts,
            path,
        ) by {
            self.below_is_let_through(after, members, path);
            assert(admits(ids_let_through(filters_by(weights)), path));
        }
    }

    /// A number at an aggregate goes to all leaves below the members and to no other
    /// cell, and as many are stored as there are.
    pub proof fn splash_goes_to_the_leaves_below(
        self,
        dims: Seq<DimensionModel<N>>,
        members: Seq<Seq<char>>,
        value: N,
        mode: SplashMode,
    )
        requires
            exact_arithmetic::<N>(),
            self.takes(dims, members),
            self.at_aggregate(dims, members),
            self.splashed(dims, members, value, mode).2 is Ok,
        ensures
            ({
                let (cube, after, outcome) = self.splashed(dims, members, value, mode);
                &&& forall|path: Seq<u32>| #[trigger]
                    self.below(after, members, path) ==> cube.cells.contains_key(path)
                        && cube.cells[path] is Numeric
                &&& forall|path: Seq<u32>|
                    !#[trigger] self.below(after, members, path) ==> cube.cells.contains_key(path)
                        == self.cells.contains_key(path) && cube.cells[path] == self.cells[path]
                &&& exists|paths: Seq<Seq<u32>>|
                    #![trigger paths.len()]
                    paths.len() == outcome->Ok_0 && paths.no_duplicates() && forall|path: Seq<u32>|
                        paths.contains(path) == #[trigger] self.below(after, members, path)
            }),
    {
        self.spread_parts(dims, members);
        let (cube, after, outcome) = self.splashed(dims, members, value, mode);
        let parts = product(self.resolutions(after, members));
        let scale = value.over_spec(total_square(parts));
        assert forall|path: Seq<u32>| #[trigger] self.below(after, members, path) implies
            cube.cells.contains_key(path) && cube.cells[path] is Numeric by {
            assert(is_place(parts, path));
            let i = choose|i: int| 0 <= i < parts.len() && (#[trigger] parts[i]).0 == path;
            parts_hold_shares(self.cells, parts, scale, mode, i);
        }
        assert forall|path: Seq<u32>| !#[trigger] self.below(after, members, path) implies
            cube.cells.contains_key(path) == self.cells.contains_key(path) && cube.cells[path]
            == self.cells[path] by {
            if is_place(parts, path) {
                let i = choose|i: int| 0 <= i < parts.len() && (#[trigger] parts[i]).0 == path;
                assert(self.below(after, members, parts[i].0));
            }
            other_cells_stay(self.cells, parts, scale, mode, path);
        }
        let paths = Seq::new(parts.len(), |i: int| parts[i].0);
        assert forall|i: int, j: int|
            0 <= i < paths.len() && 0 <= j < paths.len() && i != j implies paths[i]
            != paths[j] by {
            if i < j {
                assert(parts[i].0 != parts[j].0);
            } else {
                assert(parts[j].0 != parts[i].0);
            }
        }
        assert forall|path: Seq<u32>|
            paths.contains(path) == #[trigger] self.below(after, members, path) by {
            if self.below(after, members, path) {
                assert(is_place(parts, path));
                let i = choose|i: int| 0 <= i < parts.len() && (#[trigger] parts[i]).0 == path;
                assert(paths[i] == path);
            }
            if paths.contains(path) {
                let i = choose|i: int| 0 <= i < paths.len() && paths[i] == path;
                assert(self.below(after, members, parts[i].0));
            }
        }
        assert(paths.len() == outcome->Ok_0);
    }

    /// A number is shared out by weight: the shares of two leaves are as their
    /// weights are.
    pub proof fn shares_go_by_weight(
        self,
        dims: Seq<DimensionModel<N>>,
        members: Seq<Seq<char>>,
        value: N,
        a: Seq<u32>,
        b: Seq<u32>,
    )
        requires
            exact_arithmetic::<N>(),
            commutative_arithmetic::<N>(),
            self.takes(dims, members),
            self.at_aggregate(dims, members),
            self.splashed(dims, members, value, SplashMode::Replace).2 is Ok,
            self.below(self.splashed(dims, members, value, SplashMode::Replace).1, members, a),
            self.below(self.splashed(dims, members, value, SplashMode::Replace).1, members, b),
        ensures
            ({
                let (cube, after, _) = self.splashed(dims, members, value, SplashMode::Replace);
                number_at(cube.cells, a).times_spec(self.weight_at(after, members, b)) == number_at(
                    cube.cells,
                    b,
                ).times_spec(self.weight_at(after, members, a))
            }),
    {
        self.spread_parts(dims, members);
        let (cube, after, _) = self.splashed(dims, members, value, SplashMode::Replace);
        let parts = product(self.resolutions(after, members));
        let scale = value.over_spec(total_square(parts));
        assert(is_place(parts, a) && is_place(parts, b));
        let i = choose|i: int| 0 <= i < parts.len() && (#[trigger] parts[i]).0 == a;
        let j = choose|j: int| 0 <= j < parts.len() && (#[trigger] parts[j]).0 == b;
        parts_hold_shares(self.cells, parts, scale, SplashMode::Replace, i);
        parts_hold_shares(self.cells, parts, scale, SplashMode::Replace, j);
        shares_cross(scale, parts[i].1, parts[j].1);
    }

    /// Adding a number puts on top of what each leaf holds just what it would hold
    /// if the number had replaced it.
    pub proof fn adding_puts_the_share_on_top(
        self,
        dims: Seq<DimensionModel<N>>,
        members: Seq<Seq<char>>,
        value: N,
        path: Seq<u32>,
    )
        requires
            exact_arithmetic::<N>(),
            self.takes(dims, members),
            self.at_aggregate(dims, members),
            self.splashed(dims, members, value, SplashMode::Add).2 is Ok,
            self.below(self.splashed(dims, members, value, SplashMode::Add).1, members, path),
        ensures
            self.splashed(dims, members, value, SplashMode::Replace).1 == self.splashed(
                dims,
                members,
                value,
                SplashMode::Add,
            ).1,
            self.splashed(dims, members, value, SplashMode::Replace).2 == self.splashed(
                dims,
                members,
                value,
                SplashMode::Add,
            ).2,
            number_at(self.splashed(dims, members, value, SplashMode::Add).0.cells, path)
                == number_at(self.cells, path).plus_spec(
                number_at(
                    self.splashed(dims, members, value, SplashMode::Replace).0.cells,
                    path,
                ),
            ),
    {
        self.spread_parts(dims, members);
        let (cube, after, _) = self.splashed(dims, members, value, SplashMode::Add);
        let parts = product(self.resolutions(after, members));
        let scale = value.over_spec(total_square(parts));
        assert(is_place(parts, path));
        let i = choose|i: int| 0 <= i < parts.len() && (#[trigger] parts[i]).0 == path;
        parts_hold_shares(self.cells, parts, scale, SplashMode::Replace, i);
        parts_hold_shares(self.cells, parts, scale, SplashMode::Add, i);
    }

    /// After a number was added at an aggregate, the cells add up to so much more
    /// there.
    ///
    /// The arithmetic has to be exact and to commute, the cube to have each dimension
    /// once, and the number to be divisible by the sum of the squares of the weights.
    pub proof fn added_number_is_on_top(
        self,
        dims: Seq<DimensionModel<N>>,
        members: Seq<Seq<char>>,
        value: N,
    )
        requires
            exact_arithmetic::<N>(),
            commutative_arithmetic::<N>(),
            self.takes(dims, members),
            self.at_aggregate(dims, members),
            self.splashed(dims, members, value, SplashMode::Add).2 is Ok,
            self.spread(dims, members).1 matches Ok((lists, true)) ==> {
                let total = total_square(product(lists));
                value.over_spec(total).times_spec(total) == value
            },
        ensures
            ({
                let (cube, after, _) = self.splashed(dims, members, value, SplashMode::Add);
                cube.computed(after, members) == self.computed(after, members).plus_spec(value)
            }),
    {
        self.spread_parts(dims, members);
        let (cube, after, _) = self.splashed(dims, members, value, SplashMode::Add);
        let lists = self.resolutions(after, members);
        assert(cube.resolutions(after, members) =~= lists) by {
            assert forall|i: int| 0 <= i < members.len() implies cube.resolutions(
                after,
                members,
            )[i] == lists[i] by {
                assert(cube.dim(after, i) == self.dim(after, i));
            }
        }
        let parts = product(lists);
        let scale = value.over_spec(total_square(parts));
        assert forall|i: int| 0 <= i < parts.len() implies cube.cells.contains_key(
            (#[trigger] parts[i]).0,
        ) && cube.cells[parts[i].0] == CellModel::Numeric(
            number_at(self.cells, parts[i].0).plus_spec(scale.times_spec(parts[i].1)),
        ) by {
            parts_hold_shares(self.cells, parts, scale, SplashMode::Add, i);
        }
        assert(regular_arithmetic::<N>()) by {
            reveal(regular_arithmetic);
        }
        additions_add_up(self.cells, cube.cells, parts, scale);
        sum_is_counted(self.cells, lists);
        sum_is_counted(cube.cells, lists);
    }

    /// Where all members are known, spreading a number makes no new one.
    pub proof fn known_members_stay(
        self,
        dims: Seq<DimensionModel<N>>,
        members: Seq<Seq<char>>,
    )
        requires
            self.fits(dims.len()),
            members.len() <= self.dimensions.len(),
            forall|i: int|
                0 <= i < members.len() ==> self.dim(dims, i).id_in(
                    split(#[trigger] members[i]).0,
                    split(members[i]).1,
                ) is Some,
        ensures
            self.spread(dims, members).0 == dims,
        decreases members.len(),
    {
        if members.len() > 0 {
            let rest = members.drop_last();
            let n = members.len() - 1;
            assert forall|i: int| 0 <= i < rest.len() implies self.dim(dims, i).id_in(
                split(#[trigger] rest[i]).0,
                split(rest[i]).1,
            ) is Some by {
                assert(rest[i] == members[i]);
            }
            self.known_members_stay(dims, rest);
            assert(self.dimensions[n] < dims.len());
            assert(self.dim(dims, n).id_in(split(members[n]).0, split(members[n]).1) is Some);
            let slot = self.dimensions[n] as int;
            assert(dims.update(slot, dims[slot]) =~= dims);
        }
    }

    /// Spreading a number takes no more ids than there are members.
    pub proof fn spreading_leaves_room(
        self,
        dims: Seq<DimensionModel<N>>,
        members: Seq<Seq<char>>,
        more: nat,
    )
        requires
            self.fits(dims.len()),
            members.len() <= self.dimensions.len(),
            Self::room_for(dims, members.len() + more),
        ensures
            self.spread(dims, members).0.len() == dims.len(),
            Self::room_for(self.spread(dims, members).0, more),
        decreases members.len(),
    {
        if members.len() > 0 {
            let rest = members.drop_last();
            self.spreading_leaves_room(dims, rest, more + 1);
            let before = self.spread(dims, rest).0;
            let after = self.spread(dims, members).0;
            let slot = self.dimensions[members.len() - 1] as int;
            assert(self.dimensions[members.len() - 1] < dims.len());
            assert(before[slot].sound());
            let member = split(members.last()).1;
            before[slot].adding_a_leaf_keeps_sound(member);
            assert forall|d: int| 0 <= d < after.len() implies (#[trigger] after[d]).sound()
                && after[d].next_id + more < u32::MAX by {
                assert(before[d].sound());
            }
        } else {
            assert(Self::room_for(dims, more));
        }
    }

    /// Storing a number a second time in place of what is there changes nothing.
    pub proof fn splashing_again_changes_nothing(
        self,
        dims: Seq<DimensionModel<N>>,
        members: Seq<Seq<char>>,
        value: N,
    )
        requires
            exact_arithmetic::<N>(),
            self.takes(dims, members),
            Self::room_for(dims, members.len() + 1),
            self.splashed(dims, members, value, SplashMode::Replace).2 is Ok,
        ensures
            ({
                let (cube, after, outcome) = self.splashed(
                    dims,
                    members,
                    value,
                    SplashMode::Replace,
                );
                cube.splashed(after, members, value, SplashMode::Replace) == (cube, after, outcome)
            }),
    {
        let n = members.len() as int;
        assert(members.take(n) =~= members);
        self.spread_is_resolved(dims, members, n);
        self.spread_parts(dims, members);
        self.spreading_leaves_room(dims, members, 1);
        let (cube, after, outcome) = self.splashed(dims, members, value, SplashMode::Replace);
        let (lists, any) = self.spread(dims, members).1->Ok_0;
        cube.same_spread(self, after, members);
        assert forall|i: int|
            0 <= i < members.len() && #[trigger] self.names_aggregate(after, members, i) implies
            self.resolutions(after, members)[i].len() > 0 by {
            assert(lists[i].len() > 0);
        }
        self.known_members_stay(after, members);
        self.spread_succeeds(after, members, n);
        self.spread_parts(after, members);
        assert(self.at_aggregate(after, members) == self.at_aggregate(dims, members)) by {
            if self.at_aggregate(dims, members) {
                let i = choose|i: int|
                    0 <= i < members.len() && #[trigger] self.names_aggregate(dims, members, i);
                assert(self.names_aggregate(after, members, i));
            }
            if self.at_aggregate(after, members) {
                let i = choose|i: int|
                    0 <= i < members.len() && #[trigger] self.names_aggregate(after, members, i);
                assert(self.names_aggregate(dims, members, i));
            }
        }
        let again = cube.splashed(after, members, value, SplashMode::Replace);
        assert(self.spread(after, members) == self.spread(dims, members));
        if any {
            let parts = product(lists);
            let scale = value.over_spec(total_square(parts));
            let once = cube.cells;
            let twice = again.0.cells;
            assert forall|path: Seq<u32>| #[trigger] twice.contains_key(path) == once.contains_key(
                path,
            ) && twice[path] == once[path] by {
                if is_place(parts, path) {
                    let i = choose|i: int| 0 <= i < parts.len() && (#[trigger] parts[i]).0 == path;
                    parts_hold_shares(self.cells, parts, scale, SplashMode::Replace, i);
                    parts_hold_shares(once, parts, scale, SplashMode::Replace, i);
                } else {
                    other_cells_stay(once, parts, scale, SplashMode::Replace, path);
                }
            }
            assert(twice =~= once);
        } else {
            assert(again.0.cells =~= cube.cells);
        }
        assert(again.0 =~= cube);
    }

    /// What a number is spread over does not go by the cells.
    proof fn same_spread(
        self,
        other: CubeModel<N>,
        dims: Seq<DimensionModel<N>>,
        members: Seq<Seq<char>>,
    )
        requires
            self.dimensions == other.dimensions,
        ensures
            self.spread(dims, members) == other.spread(dims, members),
        decreases members.len(),
    {
        if members.len() > 0 {
            self.same_spread(other, dims, members.drop_last());
        }
    }

    /// Over leaves that are there, a number can be spread.
    proof fn spread_succeeds(self, dims: Seq<DimensionModel<N>>, members: Seq<Seq<char>>, n: int)
        requires
            self.fits(dims.len()),
            members.len() == self.dimensions.len(),
            0 <= n <= members.len(),
            forall|i: int|
                0 <= i < members.len() ==> self.dim(dims, i).id_in(
                    split(#[trigger] members[i]).0,
                    split(members[i]).1,
                ) is Some,
            forall|i: int|
                0 <= i < members.len() && #[trigger] self.names_aggregate(dims, members, i)
                    ==> self.resolutions(dims, members)[i].len() > 0,
        ensures
            self.spread(dims, members.take(n)).1 is Ok,
        decreases n,
    {
        if n > 0 {
            self.spread_succeeds(dims, members, n - 1);
            assert(members.take(n).drop_last() =~= members.take(n - 1));
            let rest = members.take(n - 1);
            assert forall|i: int| 0 <= i < rest.len() implies self.dim(dims, i).id_in(
                split(#[trigger] rest[i]).0,
                split(rest[i]).1,
            ) is Some by {
                assert(rest[i] == members[i]);
            }
            self.known_members_stay(dims, rest);
            let i = n - 1;
            assert(self.dimensions[i] < dims.len());
            assert(self.dim(dims, i).id_in(split(members[i]).0, split(members[i]).1) is Some);
            let slot = self.dimensions[i] as int;
            assert(dims.update(slot, dims[slot]) =~= dims);
            if self.names_aggregate(dims, members, i) {
                assert(self.resolutions(dims, members)[i].len() > 0);
            }
        }
    }
}

/// One times a number is the number.
pub proof fn one_changes_nothing<N: Number>(a: N)
    requires
        exact_arithmetic::<N>(),
        commutative_arithmetic::<N>(),
    ensures
        N::one_spec().times_spec(a) == a,
{
    assert(regular_arithmetic::<N>()) by {
        reveal(regular_arithmetic);
    }
    times_commutes(N::one_spec(), a);
    nought_and_one(a);
}

/// A scale times two weights is one number, whichever comes first.
proof fn shares_cross<N: Number>(scale: N, a: N, b: N)
    requires
        exact_arithmetic::<N>(),
        commutative_arithmetic::<N>(),
    ensures
        scale.times_spec(a).times_spec(b) == scale.times_spec(b).times_spec(a),
{
    assert(regular_arithmetic::<N>()) by {
        reveal(regular_arithmetic);
    }
    times_commutes(a, b);
}

// ---------------------------------------------------------------------------
// Writing
// ---------------------------------------------------------------------------

impl<N: Number> CubeModel<N> {
    /// Finding the leaves of some members and making them is the same, where none is
    /// an aggregate.
    proof fn spread_is_leaves_added(
        self,
        dims: Seq<DimensionModel<N>>,
        members: Seq<Seq<char>>,
        n: int,
    )
        requires
            self.takes(dims, members),
            !self.at_aggregate(dims, members),
            forall|i: int| 0 <= i < members.len() ==> is_unqualified(#[trigger] members[i]),
            0 <= n <= members.len(),
        ensures
            ({
                let (after, coords) = self.leaves_added(dims, members.take(n));
                &&& after.len() == dims.len()
                &&& coords.len() == n
                &&& forall|i: int|
                    n <= i < members.len() ==> after[#[trigger] self.dimensions[i] as int]
                        == dims[self.dimensions[i] as int]
                &&& self.spread(dims, members.take(n)) == (
                    after,
                    Ok::<(Seq<Seq<(u32, N)>>, bool), Seq<char>>(
                        (Seq::new(n as nat, |i: int| seq![(coords[i], N::one_spec())]), false),
                    ),
                )
            }),
        decreases n,
    {
        let upto = members.take(n);
        if n == 0 {
            assert(upto =~= Seq::<Seq<char>>::empty());
            assert(Seq::new(
                0nat,
                |i: int| seq![(Seq::<u32>::empty()[i], N::one_spec())],
            ) =~= Seq::<Seq<(u32, N)>>::empty());
        } else {
            assert(upto.drop_last() =~= members.take(n - 1));
            assert(upto.last() == members[n - 1]);
            self.spread_is_leaves_added(dims, members, n - 1);
            let (before, was) = self.leaves_added(dims, members.take(n - 1));
            let (after, coords) = self.leaves_added(dims, upto);
            assert(self.dimensions[n - 1] < dims.len());
            let slot = self.dimensions[n - 1] as int;
            let dim = dims[slot];
            let member = members[n - 1];
            assert(before[slot] == dim);
            assert(dim.sound());
            assert(is_unqualified(member));
            assert(!self.names_aggregate(dims, members, n - 1));
            place_of_is_first(keys(dim.hierarchies), lowercase(dim.default_hierarchy));
            if dim.leaf(member) is Some {
                dim.a_leaf_has_one_id(member, dim.place(dim.default_hierarchy)->0);
            }
            dim.adding_a_leaf_keeps_sound(member);
            let (now, id) = dim.leaf_added(member);
            assert(!now.is_aggregate(id));
            let old_lists = Seq::new(
                (n - 1) as nat,
                |i: int| seq![(was[i], N::one_spec())],
            );
            let lists = Seq::new(n as nat, |i: int| seq![(coords[i], N::one_spec())]);
            assert(old_lists.push(seq![(id, N::one_spec())]) =~= lists);
            assert forall|i: int| n <= i < members.len() implies after[
                #[trigger] self.dimensions[i] as int
            ] == dims[self.dimensions[i] as int] by {
                assert(self.dimensions[i] != self.dimensions[n - 1]);
                assert(self.dimensions[i] < dims.len());
            }
        }
    }

    /// Where no coordinate is an aggregate, a number is written as it is, whether it
    /// was to replace or to be added.
    pub proof fn splashing_at_leaves_is_writing(
        self,
        dims: Seq<DimensionModel<N>>,
        members: Seq<Seq<char>>,
        value: N,
        mode: SplashMode,
    )
        requires
            self.takes(dims, members),
            !self.at_aggregate(dims, members),
            forall|i: int| 0 <= i < members.len() ==> is_unqualified(#[trigger] members[i]),
        ensures
            ({
                let (after, coords) = self.leaves_added(dims, members);
                self.splashed(dims, members, value, mode) == (
                    self.written(coords, CellModel::Numeric(value)),
                    after,
                    Ok::<int, Seq<char>>(1),
                )
            }),
    {
        let n = members.len() as int;
        assert(members.take(n) =~= members);
        self.spread_is_leaves_added(dims, members, n);
        let (after, coords) = self.leaves_added(dims, members);
        let lists = self.spread(dims, members).1->Ok_0.0;
        assert(Seq::new(lists.len(), |i: int| lists[i][0].0) =~= coords);
    }

    /// Making leaves that are there changes nothing, and gives their ids again.
    proof fn leaves_stay(
        self,
        dims: Seq<DimensionModel<N>>,
        members: Seq<Seq<char>>,
        coords: Seq<u32>,
    )
        requires
            self.fits(dims.len()),
            members.len() <= self.dimensions.len(),
            coords.len() == members.len(),
            forall|d: int| 0 <= d < dims.len() ==> (#[trigger] dims[d]).sound(),
            forall|i: int|
                0 <= i < members.len() ==> self.dim(dims, i).id_in(None, #[trigger] members[i])
                    == Some(coords[i]),
        ensures
            self.leaves_added(dims, members) == (dims, coords),
        decreases members.len(),
    {
        if members.len() > 0 {
            let n = members.len() - 1;
            let rest = members.drop_last();
            let few = coords.drop_last();
            assert forall|i: int| 0 <= i < rest.len() implies self.dim(dims, i).id_in(
                None,
                #[trigger] rest[i],
            ) == Some(few[i]) by {
                assert(rest[i] == members[i]);
            }
            self.leaves_stay(dims, rest, few);
            assert(self.dimensions[n] < dims.len());
            let slot = self.dimensions[n] as int;
            let dim = dims[slot];
            assert(dim.sound());
            assert(self.dim(dims, n).id_in(None, members[n]) == Some(coords[n]));
            place_of_is_first(keys(dim.hierarchies), lowercase(dim.default_hierarchy));
            if dim.leaf(members[n]) is Some {
                dim.a_leaf_has_one_id(members[n], dim.place(dim.default_hierarchy)->0);
            }
            assert(dims.update(slot, dim) =~= dims);
            assert(few.push(coords[n]) =~= coords);
        } else {
            assert(coords =~= Seq::<u32>::empty());
        }
    }

    /// Writing a cell a second time changes nothing.
    pub proof fn writing_again_changes_nothing(
        self,
        dims: Seq<DimensionModel<N>>,
        members: Seq<Seq<char>>,
        cell: CellModel<N>,
    )
        requires
            self.fits(dims.len()),
            members.len() <= self.dimensions.len(),
            Self::room_for(dims, members.len()),
        ensures
            ({
                let (after, coords) = self.leaves_added(dims, members);
                let cube = self.written(coords, cell);
                &&& cube.leaves_added(after, members) == (after, coords)
                &&& cube.written(coords, cell) == cube
            }),
    {
        let (after, coords) = self.leaves_added(dims, members);
        let n = members.len() as int;
        assert(members.take(n) =~= members);
        let cube = self.written(coords, cell);
        if n > 0 {
            self.leaves_added_steps(dims, members, n, 0, 0, members[0]);
            assert forall|i: int| 0 <= i < members.len() implies cube.dim(after, i).id_in(
                None,
                #[trigger] members[i],
            ) == Some(coords[i]) by {
                self.leaves_added_are_found(dims, members, n, i);
                assert(cube.dim(after, i) == self.dim(after, i));
            }
            cube.leaves_stay(after, members, coords);
        }
        assert(cube.cells.insert(coords, cell) =~= cube.cells);
        assert(cube.written(coords, cell) =~= cube);
    }
}

impl<N: Number> CubeModel<N> {
    /// A splash that fails changes no cell. One for another number of dimensions fails.
    pub proof fn a_failed_splash_changes_no_cell(
        self,
        dims: Seq<DimensionModel<N>>,
        members: Seq<Seq<char>>,
        value: N,
        mode: SplashMode,
    )
        ensures
            self.splashed(dims, members, value, mode).2 is Err ==> self.splashed(
                dims,
                members,
                value,
                mode,
            ).0 == self,
            members.len() != self.dimensions.len() ==> self.splashed(
                dims,
                members,
                value,
                mode,
            ).2 is Err && self.splashed(dims, members, value, mode).1 == dims,
    {
    }
}

} // verus!
