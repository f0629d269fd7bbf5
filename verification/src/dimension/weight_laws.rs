//! How the weights of a hierarchy come about.

use crate::cube::share_laws::{
    commutative_arithmetic, nought_and_one, one_changes_nothing, plus_groups, regular_arithmetic,
    times_goes_into_sums, times_groups,
};
use crate::cube::splash_laws::exact_arithmetic;
use crate::dimension::hierarchy::{child_ids, scaled, tallied, HierarchyModel};
use crate::number::Number;
use vstd::prelude::*;

verus! {

/// The weight of a leaf; nought where it has none.
pub open spec fn weight_in<N: Number>(weights: Map<u32, N>, leaf: u32) -> N {
    if weights.contains_key(leaf) {
        weights[leaf]
    } else {
        N::zero_spec()
    }
}

/// What the shares of a leaf add up to.
spec fn total_of<N: Number>(shares: Seq<(u32, N)>, leaf: u32) -> N
    decreases shares.len(),
{
    if shares.len() == 0 {
        N::zero_spec()
    } else if shares.last().0 == leaf {
        total_of(shares.drop_last(), leaf).plus_spec(shares.last().1)
    } else {
        total_of(shares.drop_last(), leaf)
    }
}

/// A leaf has a share.
spec fn has_share<N>(shares: Seq<(u32, N)>, leaf: u32) -> bool {
    exists|i: int| 0 <= i < shares.len() && (#[trigger] shares[i]).0 == leaf
}

proof fn tallied_totals<N: Number>(shares: Seq<(u32, N)>, leaf: u32)
    ensures
        weight_in(tallied(Map::empty(), shares), leaf) == total_of(shares, leaf),
        tallied(Map::empty(), shares).contains_key(leaf) == has_share(shares, leaf),
    decreases shares.len(),
{
    if shares.len() > 0 {
        let rest = shares.drop_last();
        tallied_totals(rest, leaf);
        tallied_totals(rest, shares.last().0);
        if has_share(rest, leaf) {
            let i = choose|i: int| 0 <= i < rest.len() && (#[trigger] rest[i]).0 == leaf;
            assert(shares[i].0 == leaf);
        }
        if has_share(shares, leaf) && shares.last().0 != leaf {
            let i = choose|i: int| 0 <= i < shares.len() && (#[trigger] shares[i]).0 == leaf;
            assert(rest[i].0 == leaf);
        }
        if shares.last().0 == leaf {
            assert(shares[shares.len() - 1].0 == leaf);
        }
    }
}

proof fn totals_add_up<N: Number>(a: Seq<(u32, N)>, b: Seq<(u32, N)>, leaf: u32)
    requires
        regular_arithmetic::<N>(),
    ensures
        total_of(a + b, leaf) == total_of(a, leaf).plus_spec(total_of(b, leaf)),
        has_share(a + b, leaf) == (has_share(a, leaf) || has_share(b, leaf)),
    decreases b.len(),
{
    let all = a + b;
    if b.len() == 0 {
        assert(all =~= a);
        nought_and_one(total_of(a, leaf));
    } else {
        assert(all.drop_last() =~= a + b.drop_last());
        totals_add_up(a, b.drop_last(), leaf);
        plus_groups(total_of(a, leaf), total_of(b.drop_last(), leaf), b.last().1);
    }
    if has_share(a, leaf) {
        let i = choose|i: int| 0 <= i < a.len() && (#[trigger] a[i]).0 == leaf;
        assert(all[i].0 == leaf);
    }
    if has_share(b, leaf) {
        let i = choose|i: int| 0 <= i < b.len() && (#[trigger] b[i]).0 == leaf;
        assert(all[a.len() + i].0 == leaf);
    }
    if has_share(all, leaf) {
        let i = choose|i: int| 0 <= i < all.len() && (#[trigger] all[i]).0 == leaf;
        if i < a.len() {
            assert(a[i].0 == leaf);
        } else {
            assert(b[i - a.len()].0 == leaf);
        }
    }
}

proof fn totals_scale<N: Number>(shares: Seq<(u32, N)>, weight: N, leaf: u32)
    requires
        regular_arithmetic::<N>(),
    ensures
        total_of(scaled(shares, weight), leaf) == weight.times_spec(total_of(shares, leaf)),
        has_share(scaled(shares, weight), leaf) == has_share(shares, leaf),
    decreases shares.len(),
{
    let all = scaled(shares, weight);
    if shares.len() > 0 {
        assert(all.drop_last() =~= scaled(shares.drop_last(), weight));
        totals_scale(shares.drop_last(), weight, leaf);
        times_goes_into_sums(weight, total_of(shares.drop_last(), leaf), shares.last().1);
    } else {
        nought_and_one(weight);
    }
    if has_share(shares, leaf) {
        let i = choose|i: int| 0 <= i < shares.len() && (#[trigger] shares[i]).0 == leaf;
        assert(all[i].0 == leaf);
    }
    if has_share(all, leaf) {
        let i = choose|i: int| 0 <= i < all.len() && (#[trigger] all[i]).0 == leaf;
        assert(shares[i].0 == leaf);
    }
}

impl<N: Number> HierarchyModel<N> {
    /// Shares do not go by how deep a search has come, as long as it can go on to
    /// the end.
    proof fn same_shares(
        self,
        leaves: Set<u32>,
        nodes: Seq<(u32, N)>,
        a: nat,
        b: nat,
        room: nat,
    )
        requires
            self.settles(child_ids(nodes), room),
            a + room <= self.members.len() + 2,
            b + room <= self.members.len() + 2,
        ensures
            self.shares(leaves, nodes, a) == self.shares(leaves, nodes, b),
        decreases room, nodes.len(),
    {
        if nodes.len() > 0 {
            let ids = child_ids(nodes);
            let (id, weight) = nodes.last();
            assert(ids.drop_last() =~= child_ids(nodes.drop_last()));
            assert(ids.last() == id);
            self.same_shares(leaves, nodes.drop_last(), a, b, room);
            let kids = scaled(self.kids(id), weight);
            assert(child_ids(kids) =~= child_ids(self.kids(id)));
            self.same_shares(leaves, kids, a + 1, b + 1, (room - 1) as nat);
        }
    }

    /// Shares go up by a factor with the weights they have come by.
    proof fn shares_scale(self, leaves: Set<u32>, nodes: Seq<(u32, N)>, weight: N, depth: nat)
        requires
            regular_arithmetic::<N>(),
        ensures
            self.shares(leaves, scaled(nodes, weight), depth) == scaled(
                self.shares(leaves, nodes, depth),
                weight,
            ),
        decreases self.members.len() + 2 - depth, nodes.len(),
    {
        let more = scaled(nodes, weight);
        if depth > self.members.len() + 1 || nodes.len() == 0 {
            assert(scaled(self.shares(leaves, nodes, depth), weight) =~= Seq::<(u32, N)>::empty());
        } else {
            let (id, come) = nodes.last();
            let rest = nodes.drop_last();
            assert(more.drop_last() =~= scaled(rest, weight));
            assert(more.last() == (id, weight.times_spec(come)));
            self.shares_scale(leaves, rest, weight, depth);
            let first = self.shares(leaves, rest, depth);
            if leaves.contains(id) {
                assert(self.shares(leaves, more, depth) =~= scaled(
                    first + seq![(id, come)],
                    weight,
                ));
            } else {
                let kids = scaled(self.kids(id), come);
                self.shares_scale(leaves, kids, weight, depth + 1);
                let own = self.kids(id);
                assert forall|i: int| 0 <= i < own.len() implies #[trigger] scaled(
                    kids,
                    weight,
                )[i] == scaled(own, weight.times_spec(come))[i] by {
                    times_groups(weight, come, own[i].1);
                }
                assert(scaled(kids, weight) =~= scaled(own, weight.times_spec(come)));
                let below = self.shares(leaves, kids, depth + 1);
                assert(scaled(first + below, weight) =~= scaled(first, weight) + scaled(
                    below,
                    weight,
                ));
            }
        }
    }

    /// What the children hand down to a leaf: each the leaf's weight in it times its
    /// own.
    pub open spec fn handed_down(
        self,
        leaves: Set<u32>,
        kids: Seq<(u32, N)>,
        leaf: u32,
    ) -> N
        decreases kids.len(),
    {
        if kids.len() == 0 {
            N::zero_spec()
        } else {
            let (kid, weight) = kids.last();
            self.handed_down(leaves, kids.drop_last(), leaf).plus_spec(
                weight.times_spec(weight_in(self.leaf_weights(leaves, kid), leaf)),
            )
        }
    }

    /// The leaf lies below one of the children.
    pub open spec fn below_one(self, leaves: Set<u32>, kids: Seq<(u32, N)>, leaf: u32) -> bool {
        exists|i: int|
            0 <= i < kids.len() && self.leaf_weights(leaves, (#[trigger] kids[i]).0).contains_key(
                leaf,
            )
    }

    /// The shares of the children, one after the other.
    proof fn shares_of_kids(
        self,
        leaves: Set<u32>,
        kids: Seq<(u32, N)>,
        leaf: u32,
        room: nat,
    )
        requires
            regular_arithmetic::<N>(),
            self.settles(child_ids(kids), room),
            room <= self.members.len() + 1,
        ensures
            total_of(self.shares(leaves, kids, 1), leaf) == self.handed_down(leaves, kids, leaf),
            has_share(self.shares(leaves, kids, 1), leaf) == self.below_one(leaves, kids, leaf),
        decreases kids.len(),
    {
        if kids.len() > 0 {
            let rest = kids.drop_last();
            let (kid, weight) = kids[kids.len() - 1];
            assert(child_ids(kids).drop_last() =~= child_ids(rest));
            self.shares_of_kids(leaves, rest, leaf, room);
            let one = seq![(kid, N::one_spec())];
            let alone = seq![(kid, weight)];
            nought_and_one(weight);
            assert(scaled(one, weight) =~= alone);
            self.shares_scale(leaves, one, weight, 1);
            assert(child_ids(one) =~= seq![kid]);
            self.settles_each(child_ids(kids), room, kids.len() - 1);
            assert(self.settles(seq![kid], room));
            self.same_shares(leaves, one, 0, 1, room);
            self.shares_one(leaves, kid, weight, 1);
            let whole = self.shares(leaves, kids, 1);
            let first = self.shares(leaves, rest, 1);
            let last = self.shares(leaves, alone, 1);
            assert(whole == first + last);
            totals_add_up(first, last, leaf);
            let own = self.shares(leaves, one, 0);
            totals_scale(own, weight, leaf);
            tallied_totals(own, leaf);
            if self.below_one(leaves, rest, leaf) {
                let i = choose|i: int|
                    0 <= i < rest.len() && self.leaf_weights(
                        leaves,
                        (#[trigger] rest[i]).0,
                    ).contains_key(leaf);
                assert(kids[i] == rest[i]);
            }
            if self.below_one(leaves, kids, leaf) && !has_share(own, leaf) {
                let i = choose|i: int|
                    0 <= i < kids.len() && self.leaf_weights(
                        leaves,
                        (#[trigger] kids[i]).0,
                    ).contains_key(leaf);
                assert(rest[i] == kids[i]);
            }
            if has_share(own, leaf) {
                assert(self.leaf_weights(leaves, kids[kids.len() - 1].0).contains_key(leaf));
            }
        } else {
            assert(self.shares(leaves, kids, 1) =~= Seq::<(u32, N)>::empty());
        }
    }

    /// Weights multiply down a hierarchy: a leaf counts in an aggregate by the sum, over
    /// the children of the aggregate, of the child's weight times that of the leaf in
    /// the child. It lies below the aggregate where it lies below a child.
    ///
    /// Every way down from the aggregate has to come to an end.
    pub proof fn weights_multiply_down(self, leaves: Set<u32>, id: u32, leaf: u32)
        requires
            exact_arithmetic::<N>(),
            commutative_arithmetic::<N>(),
            !leaves.contains(id),
            self.settles(seq![id], self.members.len() + 2),
        ensures
            weight_in(self.leaf_weights(leaves, id), leaf) == self.handed_down(
                leaves,
                self.kids(id),
                leaf,
            ),
            self.leaf_weights(leaves, id).contains_key(leaf) == self.below_one(
                leaves,
                self.kids(id),
                leaf,
            ),
    {
        let kids = self.kids(id);
        let shares = self.shares(leaves, seq![(id, N::one_spec())], 0);
        assert(regular_arithmetic::<N>()) by {
            reveal(regular_arithmetic);
        }
        self.shares_one(leaves, id, N::one_spec(), 0);
        self.settles_one(id, self.members.len() + 2);
        assert forall|i: int| 0 <= i < kids.len() implies #[trigger] scaled(
            kids,
            N::one_spec(),
        )[i] == kids[i] by {
            one_changes_nothing(kids[i].1);
        }
        assert(scaled(kids, N::one_spec()) =~= kids);
        self.shares_of_kids(leaves, kids, leaf, self.members.len() + 1);
        tallied_totals(shares, leaf);
    }
}

} // verus!
