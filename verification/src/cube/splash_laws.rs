//! What is read back of a number that was spread over leaves.

use crate::cube::cube::{
    allocated, crossed, product, share_of, split, summed, summed_over, total_square, CubeModel,
    SplashMode,
};
use crate::cube::node::CellModel;
use crate::dimension::dimension::DimensionModel;
use crate::number::{Number, Whole};
use crate::storage::id_map::{in_turn, in_turn_is_unique, in_turn_lists, pairs_of};
use crate::storage::name_map::keys;
use crate::text::{lowercase, place_of_is_first};
use vstd::arithmetic::div_mod::{
    lemma_add_mod_noop, lemma_mul_mod_noop_left, lemma_mul_mod_noop_right,
};
use vstd::prelude::*;

verus! {

/// The arithmetic loses nothing: sums can be taken in any grouping, factors
/// too, and a factor can be taken into a sum.
pub open spec fn exact_arithmetic<N: Number>() -> bool {
    &&& forall|a: N, b: N, c: N| #[trigger]
        a.plus_spec(b).plus_spec(c) == a.plus_spec(b.plus_spec(c))
    &&& forall|a: N| #[trigger] N::zero_spec().plus_spec(a) == a
    &&& forall|a: N| #[trigger] a.plus_spec(N::zero_spec()) == a
    &&& forall|a: N, b: N, c: N| #[trigger]
        a.times_spec(b).times_spec(c) == a.times_spec(b.times_spec(c))
    &&& forall|a: N| #[trigger] a.times_spec(N::one_spec()) == a
    &&& forall|a: N| #[trigger] a.times_spec(N::zero_spec()) == N::zero_spec()
    &&& forall|a: N, b: N, c: N| #[trigger]
        a.times_spec(b.plus_spec(c)) == a.times_spec(b).plus_spec(a.times_spec(c))
}

/// What a cell counts by a weight.
pub open spec fn counted<N: Number>(
    cells: Map<Seq<u32>, CellModel<N>>,
    coords: Seq<u32>,
    weight: N,
) -> N {
    if cells.contains_key(coords) && cells[coords] is Numeric {
        cells[coords]->Numeric_0.times_spec(weight)
    } else {
        N::zero_spec()
    }
}

/// What the parts count together.
pub open spec fn counted_all<N: Number>(
    cells: Map<Seq<u32>, CellModel<N>>,
    parts: Seq<(Seq<u32>, N)>,
) -> N
    decreases parts.len(),
{
    if parts.len() == 0 {
        N::zero_spec()
    } else {
        counted_all(cells, parts.drop_last()).plus_spec(
            counted(cells, parts.last().0, parts.last().1),
        )
    }
}

/// The parts crossed with the lists from `k` on.
spec fn crossed_from<N: Number>(
    parts: Seq<(Seq<u32>, N)>,
    lists: Seq<Seq<(u32, N)>>,
    k: int,
) -> Seq<(Seq<u32>, N)>
    decreases lists.len() - k,
{
    if k < 0 || k >= lists.len() {
        parts
    } else {
        crossed_from(crossed(parts, lists[k]), lists, k + 1)
    }
}

proof fn counted_in_turn<N: Number>(
    cells: Map<Seq<u32>, CellModel<N>>,
    a: Seq<(Seq<u32>, N)>,
    b: Seq<(Seq<u32>, N)>,
)
    requires
        exact_arithmetic::<N>(),
    ensures
        counted_all(cells, a + b) == counted_all(cells, a).plus_spec(counted_all(cells, b)),
    decreases b.len(),
{
    if b.len() == 0 {
        assert(a + b =~= a);
    } else {
        assert((a + b).drop_last() =~= a + b.drop_last());
        counted_in_turn(cells, a, b.drop_last());
    }
}

proof fn crossed_in_turn<N: Number>(
    a: Seq<(Seq<u32>, N)>,
    b: Seq<(Seq<u32>, N)>,
    leaves: Seq<(u32, N)>,
)
    ensures
        crossed(a + b, leaves) == crossed(a, leaves) + crossed(b, leaves),
    decreases b.len(),
{
    if b.len() == 0 {
        assert(a + b =~= a);
        assert(crossed(a, leaves) + crossed(b, leaves) =~= crossed(a, leaves));
    } else {
        assert((a + b).drop_last() =~= a + b.drop_last());
        crossed_in_turn(a, b.drop_last(), leaves);
        assert(crossed(a + b, leaves) =~= crossed(a, leaves) + crossed(b, leaves));
    }
}

proof fn crossed_from_in_turn<N: Number>(
    a: Seq<(Seq<u32>, N)>,
    b: Seq<(Seq<u32>, N)>,
    lists: Seq<Seq<(u32, N)>>,
    k: int,
)
    requires
        0 <= k,
    ensures
        crossed_from(a + b, lists, k) == crossed_from(a, lists, k) + crossed_from(b, lists, k),
    decreases lists.len() - k,
{
    if k < lists.len() {
        crossed_in_turn(a, b, lists[k]);
        crossed_from_in_turn(crossed(a, lists[k]), crossed(b, lists[k]), lists, k + 1);
    }
}

proof fn crossed_from_none<N: Number>(lists: Seq<Seq<(u32, N)>>, k: int)
    requires
        0 <= k,
    ensures
        crossed_from(Seq::empty(), lists, k).len() == 0,
    decreases lists.len() - k,
{
    if k < lists.len() {
        crossed_from_none::<N>(lists, k + 1);
        assert(crossed(Seq::<(Seq<u32>, N)>::empty(), lists[k]) =~= Seq::empty());
    }
}

/// The product is what is left to cross, crossed.
proof fn product_from<N: Number>(lists: Seq<Seq<(u32, N)>>, k: int)
    requires
        0 <= k <= lists.len(),
    ensures
        crossed_from(product(lists.take(k)), lists, k) == product(lists),
    decreases lists.len() - k,
{
    if k < lists.len() {
        product_from(lists, k + 1);
        assert(lists.take(k + 1).drop_last() =~= lists.take(k));
    } else {
        assert(lists.take(k) =~= lists);
    }
}

/// The leaves that one part is crossed with.
spec fn branches<N: Number>(coords: Seq<u32>, weight: N, leaves: Seq<(u32, N)>, n: nat) -> Seq<
    (Seq<u32>, N),
> {
    Seq::new(n, |i: int| (coords.push(leaves[i].0), weight.times_spec(leaves[i].1)))
}

/// The sum from a part on is what the parts count that it leads to.
proof fn summed_is_counted<N: Number>(
    cells: Map<Seq<u32>, CellModel<N>>,
    lists: Seq<Seq<(u32, N)>>,
    coords: Seq<u32>,
    weight: N,
)
    requires
        exact_arithmetic::<N>(),
        coords.len() <= lists.len(),
    ensures
        summed(cells, lists, coords, weight) == counted_all(
            cells,
            crossed_from(seq![(coords, weight)], lists, coords.len() as int),
        ),
    decreases lists.len() - coords.len(), 1nat, 0nat,
{
    let one = seq![(coords, weight)];
    let k = coords.len() as int;
    assert(one.drop_last() =~= Seq::<(Seq<u32>, N)>::empty());
    assert(one.last() == (coords, weight));
    if k >= lists.len() {
        assert(counted_all(cells, one.drop_last()) == N::zero_spec());
        assert(counted_all(cells, one) == N::zero_spec().plus_spec(counted(cells, coords, weight)));
    } else {
        let leaves = lists[k];
        assert(crossed(one.drop_last(), leaves) =~= Seq::<(Seq<u32>, N)>::empty());
        assert(crossed(one, leaves) =~= branches(coords, weight, leaves, leaves.len()));
        summed_over_is_counted(cells, lists, coords, weight, leaves.len());
    }
}

proof fn summed_over_is_counted<N: Number>(
    cells: Map<Seq<u32>, CellModel<N>>,
    lists: Seq<Seq<(u32, N)>>,
    coords: Seq<u32>,
    weight: N,
    n: nat,
)
    requires
        exact_arithmetic::<N>(),
        coords.len() < lists.len(),
        n <= lists[coords.len() as int].len(),
    ensures
        summed_over(cells, lists, coords, weight, n) == counted_all(
            cells,
            crossed_from(
                branches(coords, weight, lists[coords.len() as int], n),
                lists,
                coords.len() as int + 1,
            ),
        ),
    decreases lists.len() - coords.len(), 0nat, n,
{
    let k = coords.len() as int;
    let leaves = lists[k];
    let all = branches(coords, weight, leaves, n);
    if n == 0 {
        assert(all =~= Seq::<(Seq<u32>, N)>::empty());
        crossed_from_none::<N>(lists, k + 1);
    } else {
        let (leaf, share) = leaves[n - 1];
        let before = branches(coords, weight, leaves, (n - 1) as nat);
        let last = seq![(coords.push(leaf), weight.times_spec(share))];
        assert(all =~= before + last);
        summed_over_is_counted(cells, lists, coords, weight, (n - 1) as nat);
        summed_is_counted(cells, lists, coords.push(leaf), weight.times_spec(share));
        crossed_from_in_turn(before, last, lists, k + 1);
        counted_in_turn(
            cells,
            crossed_from(before, lists, k + 1),
            crossed_from(last, lists, k + 1),
        );
    }
}

/// The sum over the crossings of the leaves is what the crossings count together.
pub proof fn sum_is_counted<N: Number>(
    cells: Map<Seq<u32>, CellModel<N>>,
    lists: Seq<Seq<(u32, N)>>,
)
    requires
        exact_arithmetic::<N>(),
    ensures
        summed(cells, lists, Seq::empty(), N::one_spec()) == counted_all(cells, product(lists)),
{
    summed_is_counted(cells, lists, Seq::empty(), N::one_spec());
    product_from(lists, 0);
    assert(lists.take(0) =~= Seq::<Seq<(u32, N)>>::empty());
    assert(product(lists.take(0)) =~= seq![(Seq::<u32>::empty(), N::one_spec())]);
}

/// No two parts are at the same place.
pub open spec fn places_distinct<N>(parts: Seq<(Seq<u32>, N)>) -> bool {
    forall|i: int, j: int|
        0 <= i < j < parts.len() ==> (#[trigger] parts[i]).0 != (#[trigger] parts[j]).0
}

/// No two leaves of the list are the same.
pub open spec fn leaves_distinct<N>(leaves: Seq<(u32, N)>) -> bool {
    forall|i: int, j: int|
        0 <= i < j < leaves.len() ==> (#[trigger] leaves[i]).0 != (#[trigger] leaves[j]).0
}

proof fn crossed_parts<N: Number>(parts: Seq<(Seq<u32>, N)>, leaves: Seq<(u32, N)>)
    ensures
        forall|i: int|
            0 <= i < crossed(parts, leaves).len() ==> exists|a: int, b: int|
                0 <= a < parts.len() && 0 <= b < leaves.len() && (#[trigger] crossed(
                    parts,
                    leaves,
                )[i]).0 == (#[trigger] parts[a]).0.push((#[trigger] leaves[b]).0),
        places_distinct(parts) && leaves_distinct(leaves) ==> places_distinct(
            crossed(parts, leaves),
        ),
    decreases parts.len(),
{
    if parts.len() > 0 {
        let rest = parts.drop_last();
        let (coords, weight) = parts.last();
        crossed_parts(rest, leaves);
        let first = crossed(rest, leaves);
        let more = branches(coords, weight, leaves, leaves.len());
        let all = crossed(parts, leaves);
        assert(all =~= first + more);
        assert forall|i: int| 0 <= i < all.len() implies exists|a: int, b: int|
            0 <= a < parts.len() && 0 <= b < leaves.len() && (#[trigger] all[i]).0 == (
            #[trigger] parts[a]).0.push((#[trigger] leaves[b]).0) by {
            if i < first.len() {
                let (a, b) = choose|a: int, b: int|
                    0 <= a < rest.len() && 0 <= b < leaves.len() && first[i].0 == (
                    #[trigger] rest[a]).0.push((#[trigger] leaves[b]).0);
                assert(parts[a] == rest[a]);
                assert(all[i].0 == parts[a].0.push(leaves[b].0));
            } else {
                let b = i - first.len();
                assert(all[i].0 == parts[parts.len() - 1].0.push(leaves[b].0));
            }
        }
        if places_distinct(parts) && leaves_distinct(leaves) {
            assert forall|i: int, j: int| 0 <= i < j < rest.len() implies (#[trigger] rest[i]).0 != (
            #[trigger] rest[j]).0 by {
                assert(parts[i].0 != parts[j].0);
            }
            assert forall|i: int, j: int| 0 <= i < j < all.len() implies (#[trigger] all[i]).0 != (
            #[trigger] all[j]).0 by {
                if j < first.len() {
                    assert(first[i].0 != first[j].0);
                } else {
                    let b = j - first.len();
                    assert(all[j].0 == coords.push(leaves[b].0));
                    assert(all[j].0.drop_last() =~= coords);
                    assert(all[j].0.last() == leaves[b].0);
                    if i < first.len() {
                        let (a, c) = choose|a: int, c: int|
                            0 <= a < rest.len() && 0 <= c < leaves.len() && first[i].0 == (
                            #[trigger] rest[a]).0.push((#[trigger] leaves[c]).0);
                        assert(all[i].0.drop_last() =~= rest[a].0);
                        assert(parts[a].0 != parts[parts.len() - 1].0);
                    } else {
                        let a = i - first.len();
                        assert(all[i].0.last() == leaves[a].0);
                        assert(leaves[a].0 != leaves[b].0);
                    }
                }
            }
        }
    }
}

pub proof fn product_places_distinct<N: Number>(lists: Seq<Seq<(u32, N)>>)
    requires
        forall|i: int| 0 <= i < lists.len() ==> leaves_distinct(#[trigger] lists[i]),
    ensures
        places_distinct(product(lists)),
    decreases lists.len(),
{
    if lists.len() > 0 {
        let rest = lists.drop_last();
        assert forall|i: int| 0 <= i < rest.len() implies leaves_distinct(#[trigger] rest[i]) by {
            assert(rest[i] == lists[i]);
        }
        product_places_distinct(rest);
        assert(leaves_distinct(lists[lists.len() - 1]));
        crossed_parts(product(rest), lists.last());
    }
}

/// Each part holds its share.
proof fn shares_are_held<N: Number>(
    cells: Map<Seq<u32>, CellModel<N>>,
    parts: Seq<(Seq<u32>, N)>,
    scale: N,
)
    requires
        places_distinct(parts),
    ensures
        forall|i: int|
            0 <= i < parts.len() ==> ({
                let after = allocated(cells, parts, scale, SplashMode::Replace);
                let (coords, weight) = #[trigger] parts[i];
                after.contains_key(coords) && after[coords] == CellModel::Numeric(
                    share_of(scale, weight),
                )
            }),
    decreases parts.len(),
{
    if parts.len() > 0 {
        let rest = parts.drop_last();
        assert forall|i: int, j: int| 0 <= i < j < rest.len() implies (#[trigger] rest[i]).0 != (
        #[trigger] rest[j]).0 by {
            assert(parts[i].0 != parts[j].0);
        }
        shares_are_held(cells, rest, scale);
        assert forall|i: int| 0 <= i < parts.len() implies ({
            let after = allocated(cells, parts, scale, SplashMode::Replace);
            let (coords, weight) = #[trigger] parts[i];
            after.contains_key(coords) && after[coords] == CellModel::Numeric(
                share_of(scale, weight),
            )
        }) by {
            if i < rest.len() {
                assert(rest[i] == parts[i]);
                assert(parts[i].0 != parts[parts.len() - 1].0);
            }
        }
    }
}

/// Shares that count by their own weights add up to the whole.
proof fn shares_add_up<N: Number>(
    cells: Map<Seq<u32>, CellModel<N>>,
    parts: Seq<(Seq<u32>, N)>,
    scale: N,
)
    requires
        exact_arithmetic::<N>(),
        forall|i: int|
            0 <= i < parts.len() ==> cells.contains_key((#[trigger] parts[i]).0)
                && cells[parts[i].0] == CellModel::Numeric(share_of(scale, parts[i].1)),
    ensures
        counted_all(cells, parts) == scale.times_spec(total_square(parts)),
    decreases parts.len(),
{
    if parts.len() > 0 {
        let rest = parts.drop_last();
        assert forall|i: int| 0 <= i < rest.len() implies cells.contains_key(
            (#[trigger] rest[i]).0,
        ) && cells[rest[i].0] == CellModel::Numeric(share_of(scale, rest[i].1)) by {
            assert(rest[i] == parts[i]);
        }
        shares_add_up(cells, rest, scale);
        let (coords, weight) = parts[parts.len() - 1];
        let square = weight.times_spec(weight);
        assert(share_of(scale, weight).times_spec(weight) == scale.times_spec(square));
        assert(counted(cells, coords, weight) == scale.times_spec(square));
        assert(scale.times_spec(total_square(rest).plus_spec(square)) == scale.times_spec(
            total_square(rest),
        ).plus_spec(scale.times_spec(square)));
    }
}

/// A number that was spread over the crossings of the leaves adds up to itself
/// over the same crossings, where the arithmetic is exact, no leaf stands in a
/// list twice, and the number can be divided by the sum of the squares of the
/// weights.
pub proof fn spread_number_adds_up<N: Number>(
    cells: Map<Seq<u32>, CellModel<N>>,
    lists: Seq<Seq<(u32, N)>>,
    value: N,
)
    requires
        exact_arithmetic::<N>(),
        forall|i: int| 0 <= i < lists.len() ==> leaves_distinct(#[trigger] lists[i]),
        value.over_spec(total_square(product(lists))).times_spec(
            total_square(product(lists)),
        ) == value,
    ensures
        summed(
            allocated(
                cells,
                product(lists),
                value.over_spec(total_square(product(lists))),
                SplashMode::Replace,
            ),
            lists,
            Seq::empty(),
            N::one_spec(),
        ) == value,
{
    let parts = product(lists);
    let scale = value.over_spec(total_square(parts));
    let after = allocated(cells, parts, scale, SplashMode::Replace);
    product_places_distinct(lists);
    shares_are_held(cells, parts, scale);
    shares_add_up(after, parts, scale);
    summed_is_counted(after, lists, Seq::empty(), N::one_spec());
    product_from(lists, 0);
    assert(lists.take(0) =~= Seq::<Seq<(u32, N)>>::empty());
    assert(product(lists.take(0)) =~= seq![(Seq::<u32>::empty(), N::one_spec())]);
}

proof fn pairs_distinct<N: Number>(weights: Map<u32, N>)
    ensures
        leaves_distinct(pairs_of(weights)),
{
    in_turn_lists(weights.dom());
    let ids = in_turn(weights.dom());
    assert forall|i: int, j: int| 0 <= i < j < pairs_of(weights).len() implies (
    #[trigger] pairs_of(weights)[i]).0 != (#[trigger] pairs_of(weights)[j]).0 by {
        assert(ids[i] < ids[j]);
    }
}

impl<N: Number> DimensionModel<N> {
    /// A leaf has itself below it, by a weight of one.
    proof fn leaf_pairs(self, hierarchy: Option<Seq<char>>, member: Seq<char>, id: u32)
        requires
            exact_arithmetic::<N>(),
            self.id_in(hierarchy, member) == Some(id),
            self.leaf_names.contains_key(id),
        ensures
            pairs_of(self.leaf_weights(hierarchy, member)) == seq![(id, N::one_spec())],
    {
        let h = self.resolved(hierarchy)->0;
        h.leaf_is_below_itself(self.leaves(), id);
        let weights = self.leaf_weights(hierarchy, member);
        let one = seq![id];
        assert(one[0] == id);
        assert(one.contains(id));
        assert(weights.dom() =~= one.to_set());
        in_turn_is_unique(one);
        assert(pairs_of(weights) =~= seq![(id, N::one_spec())]);
    }
}

impl<N: Number> CubeModel<N> {
    /// The coordinate names an aggregate or a leaf of a hierarchy that is
    /// there, or nothing in it that is a member of the default hierarchy.
    pub open spec fn reaches(self, dims: Seq<DimensionModel<N>>, i: int, coord: Seq<char>) -> bool {
        let dim = self.dim(dims, i);
        let (hierarchy, member) = split(coord);
        &&& dim.resolved(hierarchy) is Some
        &&& match dim.id_in(hierarchy, member) {
            Some(id) => dim.is_aggregate(id) || dim.leaf_names.contains_key(id),
            None => dim.id_in(None, member) is None,
        }
    }

    /// The lists over which a number is spread are those over which it is
    /// summed up.
    pub proof fn spread_is_resolved(
        self,
        dims: Seq<DimensionModel<N>>,
        members: Seq<Seq<char>>,
        n: int,
    )
        requires
            exact_arithmetic::<N>(),
            self.fits(dims.len()),
            self.dimensions.no_duplicates(),
            members.len() == self.dimensions.len(),
            Self::room_for(dims, 1),
            forall|i: int|
                0 <= i < members.len() ==> self.reaches(dims, i, #[trigger] members[i]),
            0 <= n <= members.len(),
            self.spread(dims, members.take(n)).1 is Ok,
        ensures
            ({
                let (after, outcome) = self.spread(dims, members.take(n));
                let (lists, any) = outcome->Ok_0;
                &&& after.len() == dims.len()
                &&& forall|i: int|
                    n <= i < members.len() ==> after[#[trigger] self.dimensions[i] as int]
                        == dims[self.dimensions[i] as int]
                &&& lists.len() == n
                &&& forall|i: int|
                    0 <= i < n ==> #[trigger] lists[i] == pairs_of(
                        self.dim(after, i).leaf_weights(split(members[i]).0, split(members[i]).1),
                    ) && leaves_distinct(lists[i]) && lists[i].len() > 0
                &&& !any ==> forall|i: int|
                    0 <= i < n ==> (#[trigger] lists[i]).len() == 1 && lists[i][0].1
                        == N::one_spec()
                &&& forall|i: int|
                    0 <= i < n ==> self.reaches(after, i, #[trigger] members[i]) && self.dim(
                        after,
                        i,
                    ).id_in(split(members[i]).0, split(members[i]).1) is Some
                &&& forall|i: int|
                    0 <= i < n ==> #[trigger] self.names_aggregate(after, members, i)
                        == self.names_aggregate(dims, members, i)
                &&& any == exists|i: int|
                    0 <= i < n && #[trigger] self.names_aggregate(dims, members, i)
            }),
        decreases n,
    {
        let upto = members.take(n);
        if n == 0 {
            assert(upto =~= Seq::<Seq<char>>::empty());
        } else {
            assert(upto.drop_last() =~= members.take(n - 1));
            assert(upto.last() == members[n - 1]);
            self.spread_is_resolved(dims, members, n - 1);
            let (before, sofar) = self.spread(dims, members.take(n - 1));
            let (lists_before, any_before) = sofar->Ok_0;
            let (after, outcome) = self.spread(dims, upto);
            let (lists, any) = outcome->Ok_0;
            assert(self.dimensions[n - 1] < dims.len());
            let slot = self.dimensions[n - 1] as int;
            let dim = dims[slot];
            assert(before[slot] == dim);
            assert(dim.sound());
            assert(self.reaches(dims, n - 1, members[n - 1]));
            let (hierarchy, member) = split(members[n - 1]);
            match dim.id_in(hierarchy, member) {
                Some(id) => {
                    if !dim.is_aggregate(id) {
                        dim.leaf_pairs(hierarchy, member, id);
                    }
                },
                None => {
                    dim.adding_a_leaf_keeps_sound(member);
                    if dim.leaf(member) is Some {
                        place_of_is_first(
                            keys(dim.hierarchies),
                            lowercase(dim.hierarchy_named(hierarchy)),
                        );
                        dim.a_leaf_has_one_id(
                            member,
                            dim.place(dim.hierarchy_named(hierarchy))->0,
                        );
                    }
                    dim.new_leaf_is_found(hierarchy, member);
                    let (now, id) = dim.leaf_added(member);
                    assert(now.leaf_names.contains_key(id));
                    assert(!now.is_aggregate(id));
                    now.leaf_pairs(hierarchy, member, id);
                },
            }
            pairs_distinct(after[slot].leaf_weights(hierarchy, member));
            assert(lists.last() == pairs_of(after[slot].leaf_weights(hierarchy, member)));
            assert forall|i: int| 0 <= i < n implies #[trigger] lists[i] == pairs_of(
                self.dim(after, i).leaf_weights(split(members[i]).0, split(members[i]).1),
            ) && leaves_distinct(lists[i]) && lists[i].len() > 0 by {
                if i < n - 1 {
                    assert(lists[i] == lists_before[i]);
                    assert(self.dimensions[i] != self.dimensions[n - 1]);
                    assert(self.dimensions[i] < dims.len());
                    assert(self.dim(after, i) == self.dim(before, i));
                }
            }
            assert forall|i: int| n <= i < members.len() implies after[
                #[trigger] self.dimensions[i] as int
            ] == dims[self.dimensions[i] as int] by {
                assert(self.dimensions[i] != self.dimensions[n - 1]);
                assert(self.dimensions[i] < dims.len());
            }
            if !any {
                assert forall|i: int| 0 <= i < n implies (#[trigger] lists[i]).len() == 1
                    && lists[i][0].1 == N::one_spec() by {
                    if i < n - 1 {
                        assert(lists[i] == lists_before[i]);
                    }
                }
            }
            assert forall|i: int| 0 <= i < n implies self.reaches(after, i, #[trigger] members[i])
                && self.dim(after, i).id_in(split(members[i]).0, split(members[i]).1) is Some
                && self.names_aggregate(after, members, i) == self.names_aggregate(
                dims,
                members,
                i,
            ) by {
                if i < n - 1 {
                    assert(self.reaches(before, i, members[i]));
                    assert(self.names_aggregate(before, members, i) == self.names_aggregate(
                        dims,
                        members,
                        i,
                    ));
                    assert(self.dimensions[i] != self.dimensions[n - 1]);
                    assert(self.dimensions[i] < dims.len());
                    assert(self.dim(after, i) == self.dim(before, i));
                } else {
                    assert(self.dim(after, i) == after[slot]);
                    assert(self.dim(dims, i) == dim);
                }
            }
            assert(any == (any_before || self.names_aggregate(dims, members, n - 1)));
            if any && !any_before {
                assert(self.names_aggregate(dims, members, n - 1));
            }
        }
    }

    /// A number that was stored at members, spread over the leaves below where
    /// they are aggregates, is what the cells add up to at the same members.
    ///
    /// The arithmetic has to be exact and the cube to have each dimension once;
    /// where the number is spread, it has to be divisible by the sum of the
    /// squares of the weights.
    pub proof fn splashed_number_is_read_back(
        self,
        dims: Seq<DimensionModel<N>>,
        members: Seq<Seq<char>>,
        value: N,
    )
        requires
            exact_arithmetic::<N>(),
            self.fits(dims.len()),
            self.dimensions.no_duplicates(),
            members.len() == self.dimensions.len(),
            Self::room_for(dims, 1),
            forall|i: int|
                0 <= i < members.len() ==> self.reaches(dims, i, #[trigger] members[i]),
            self.splashed(dims, members, value, SplashMode::Replace).2 is Ok,
            self.spread(dims, members).1 matches Ok((lists, true)) ==> {
                let total = total_square(product(lists));
                value.over_spec(total).times_spec(total) == value
            },
        ensures
            ({
                let (cube, after, _) = self.splashed(dims, members, value, SplashMode::Replace);
                cube.computed(after, members) == value
            }),
    {
        let n = members.len() as int;
        assert(members.take(n) =~= members);
        self.spread_is_resolved(dims, members, n);
        let (cube, after, _) = self.splashed(dims, members, value, SplashMode::Replace);
        let (lists, any) = self.spread(dims, members).1->Ok_0;
        assert forall|i: int| 0 <= i < n implies cube.resolutions(after, members)[i] == lists[i] by {
            assert(cube.dim(after, i) == self.dim(after, i));
        }
        assert(cube.resolutions(after, members) =~= lists);
        if any {
            spread_number_adds_up(self.cells, lists, value);
        } else {
            let coords = Seq::new(lists.len(), |i: int| lists[i][0].0);
            single_product(lists, coords, n);
            assert(lists.take(n) =~= lists);
            assert(coords.take(n) =~= coords);
            summed_is_counted(cube.cells, lists, Seq::empty(), N::one_spec());
            product_from(lists, 0);
            assert(lists.take(0) =~= Seq::<Seq<(u32, N)>>::empty());
            assert(product(lists.take(0)) =~= seq![(Seq::<u32>::empty(), N::one_spec())]);
            let parts = product(lists);
            assert(parts.drop_last() =~= Seq::<(Seq<u32>, N)>::empty());
            assert(parts.last() == (coords, N::one_spec()));
            assert(counted_all(cube.cells, parts.drop_last()) == N::zero_spec());
            assert(counted(cube.cells, coords, N::one_spec()) == value.times_spec(N::one_spec()));
        }
    }
}

/// One leaf in each list makes one part.
proof fn single_product<N: Number>(lists: Seq<Seq<(u32, N)>>, coords: Seq<u32>, n: int)
    requires
        exact_arithmetic::<N>(),
        0 <= n <= lists.len(),
        coords == Seq::new(lists.len(), |i: int| lists[i][0].0),
        forall|i: int|
            0 <= i < lists.len() ==> (#[trigger] lists[i]).len() == 1 && lists[i][0].1
                == N::one_spec(),
    ensures
        product(lists.take(n)) == seq![(coords.take(n), N::one_spec())],
    decreases n,
{
    let upto = lists.take(n);
    if n == 0 {
        assert(coords.take(0) =~= Seq::<u32>::empty());
    } else {
        assert(upto.drop_last() =~= lists.take(n - 1));
        single_product(lists, coords, n - 1);
        let before = product(lists.take(n - 1));
        assert(lists[n - 1].len() == 1);
        assert(before.drop_last() =~= Seq::<(Seq<u32>, N)>::empty());
        assert(before.last() == (coords.take(n - 1), N::one_spec()));
        assert(crossed(before.drop_last(), upto.last()) =~= Seq::<(Seq<u32>, N)>::empty());
        assert(N::one_spec().times_spec(N::one_spec()) == N::one_spec());
        assert(coords.take(n - 1).push(lists[n - 1][0].0) =~= coords.take(n));
        assert(crossed(before, upto.last()) =~= seq![(coords.take(n), N::one_spec())]);
    }
}

// ---------------------------------------------------------------------------
// Whole numbers
// ---------------------------------------------------------------------------

/// How many numbers there are in 64 bits.
spec fn span() -> int {
    0x1_0000_0000_0000_0000
}

/// Numbers of 64 bits that leave the same remainder are the same.
proof fn same_remainder(x: i64, y: i64)
    requires
        (x as int) % span() == (y as int) % span(),
    ensures
        x == y,
{
}

proof fn plus_remainder(x: Whole, y: Whole)
    ensures
        (x.plus_spec(y).0 as int) % span() == (x.0 + y.0) % span(),
{
}

proof fn times_remainder(x: Whole, y: Whole)
    ensures
        (x.times_spec(y).0 as int) % span() == (x.0 * y.0) % span(),
{
}

/// The arithmetic of whole numbers is exact.
pub proof fn whole_arithmetic_is_exact()
    ensures
        exact_arithmetic::<Whole>(),
{
    assert forall|a: Whole, b: Whole, c: Whole| #[trigger]
        a.times_spec(b).times_spec(c) == a.times_spec(b.times_spec(c)) by {
        let (x, y, z) = (a.0 as int, b.0 as int, c.0 as int);
        let left = a.times_spec(b);
        let right = b.times_spec(c);
        times_remainder(a, b);
        times_remainder(left, c);
        times_remainder(b, c);
        times_remainder(a, right);
        lemma_mul_mod_noop_left(left.0 as int, z, span());
        lemma_mul_mod_noop_left(x * y, z, span());
        lemma_mul_mod_noop_right(x, right.0 as int, span());
        lemma_mul_mod_noop_right(x, y * z, span());
        assert((x * y) * z == x * (y * z)) by (nonlinear_arith);
        same_remainder(left.times_spec(c).0, a.times_spec(right).0);
    }
    assert forall|a: Whole, b: Whole, c: Whole| #[trigger]
        a.times_spec(b.plus_spec(c)) == a.times_spec(b).plus_spec(a.times_spec(c)) by {
        let (x, y, z) = (a.0 as int, b.0 as int, c.0 as int);
        let sum = b.plus_spec(c);
        let left = a.times_spec(b);
        let right = a.times_spec(c);
        plus_remainder(b, c);
        times_remainder(a, sum);
        times_remainder(a, b);
        times_remainder(a, c);
        plus_remainder(left, right);
        lemma_mul_mod_noop_right(x, sum.0 as int, span());
        lemma_mul_mod_noop_right(x, y + z, span());
        assert(x * (y + z) == x * y + x * z) by (nonlinear_arith);
        lemma_add_mod_noop(left.0 as int, right.0 as int, span());
        lemma_add_mod_noop(x * y, x * z, span());
        same_remainder(a.times_spec(sum).0, left.plus_spec(right).0);
    }
    assert forall|a: Whole| #[trigger] a.times_spec(Whole::one_spec()) == a by {
        times_remainder(a, Whole(1));
        same_remainder(a.times_spec(Whole(1)).0, a.0);
    }
    assert forall|a: Whole| #[trigger] a.times_spec(Whole::zero_spec()) == Whole::zero_spec() by {
        times_remainder(a, Whole(0));
        same_remainder(a.times_spec(Whole(0)).0, 0);
    }
}

} // verus!
