//! Cells by coordinate: a trie over the ids of the members.

use crate::cube::node::{CellModel, CellValue, Node};
use crate::number::Number;
use crate::storage::id_map::{ascending, copy_ids, sorted_keys};
use crate::text::{cat3, cat4, decimal, decimal_text, join, joined, lines, push_line, texts};
use std::collections::BTreeMap;
use vstd::prelude::*;

verus! {

broadcast use {vstd::std_specs::btree::group_btree_axioms, vstd::laws_cmp::group_laws_cmp};

// ---------------------------------------------------------------------------
// The order of coordinates
// ---------------------------------------------------------------------------

/// `a` comes before `b`: by the first id in which they differ, a beginning
/// before what continues it.
pub open spec fn before(a: Seq<u32>, b: Seq<u32>) -> bool
    decreases a.len(),
{
    if b.len() == 0 {
        false
    } else if a.len() == 0 {
        true
    } else if a[0] == b[0] {
        before(a.skip(1), b.skip(1))
    } else {
        a[0] < b[0]
    }
}

pub proof fn before_not_itself(a: Seq<u32>)
    ensures
        !before(a, a),
    decreases a.len(),
{
    if a.len() > 0 {
        before_not_itself(a.skip(1));
    }
}

pub proof fn before_transitive(a: Seq<u32>, b: Seq<u32>, c: Seq<u32>)
    requires
        before(a, b),
        before(b, c),
    ensures
        before(a, c),
    decreases a.len(),
{
    if a.len() > 0 && a[0] == b[0] && b[0] == c[0] {
        before_transitive(a.skip(1), b.skip(1), c.skip(1));
    }
}

/// `out` lists, in order, the cells whose coordinates are wanted: all of them
/// and no others.
pub open spec fn is_listing<V>(
    cells: Map<Seq<u32>, V>,
    wanted: spec_fn(Seq<u32>) -> bool,
    out: Seq<(Seq<u32>, V)>,
) -> bool {
    &&& forall|i: int, j: int| 0 <= i < j < out.len() ==> before(#[trigger] out[i].0, #[trigger] out[j].0)
    &&& forall|i: int|
        0 <= i < out.len() ==> wanted(#[trigger] out[i].0) && cells.contains_key(out[i].0)
            && cells[out[i].0] == out[i].1
    &&& forall|path: Seq<u32>| #[trigger]
        cells.contains_key(path) && wanted(path) ==> exists|i: int|
            0 <= i < out.len() && #[trigger] out[i].0 == path
}

/// The wanted cells in order.
pub open spec fn listing<V>(
    cells: Map<Seq<u32>, V>,
    wanted: spec_fn(Seq<u32>) -> bool,
) -> Seq<(Seq<u32>, V)> {
    choose|out: Seq<(Seq<u32>, V)>| is_listing(cells, wanted, out)
}

proof fn listings_agree<V>(
    cells: Map<Seq<u32>, V>,
    wanted: spec_fn(Seq<u32>) -> bool,
    a: Seq<(Seq<u32>, V)>,
    b: Seq<(Seq<u32>, V)>,
    n: int,
)
    requires
        is_listing(cells, wanted, a),
        is_listing(cells, wanted, b),
        0 <= n <= a.len(),
    ensures
        n <= b.len(),
        forall|i: int| 0 <= i < n ==> a[i] == b[i],
    decreases n,
{
    if n > 0 {
        let last = n - 1;
        listings_agree(cells, wanted, a, b, last);
        let path = a[last].0;
        assert(cells.contains_key(path) && wanted(path));
        let j = choose|j: int| 0 <= j < b.len() && #[trigger] b[j].0 == path;
        if j < last {
            assert(a[j] == b[j]);
            assert(before(a[j].0, a[last].0));
            before_not_itself(path);
        }
        if j > last {
            let other = b[last].0;
            assert(cells.contains_key(other) && wanted(other));
            let k = choose|k: int| 0 <= k < a.len() && #[trigger] a[k].0 == other;
            assert(before(b[last].0, b[j].0));
            if k < last {
                assert(a[k] == b[k]);
                assert(before(b[k].0, b[last].0));
                before_not_itself(other);
            } else if k == last {
                before_not_itself(other);
            } else {
                assert(before(a[last].0, a[k].0));
                before_transitive(path, other, path);
                before_not_itself(path);
            }
        }
        assert(j == last);
    }
}

/// There is but one listing.
pub proof fn listing_is_unique<V>(
    cells: Map<Seq<u32>, V>,
    wanted: spec_fn(Seq<u32>) -> bool,
    out: Seq<(Seq<u32>, V)>,
)
    requires
        is_listing(cells, wanted, out),
    ensures
        out == listing(cells, wanted),
{
    let other = listing(cells, wanted);
    listings_agree(cells, wanted, out, other, out.len() as int);
    listings_agree(cells, wanted, other, out, other.len() as int);
    assert(out =~= other);
}

// ---------------------------------------------------------------------------
// Listing a trie
// ---------------------------------------------------------------------------

/// The coordinates that a filter per dimension lets through.
pub open spec fn admits(allowed: Seq<Option<Set<u32>>>, path: Seq<u32>) -> bool {
    path.len() == allowed.len() && forall|i: int|
        0 <= i < path.len() ==> (#[trigger] allowed[i] matches Some(ids) ==> ids.contains(path[i]))
}

/// The ids that each filter lets through.
pub open spec fn allowed_ids<W>(allowed: Seq<Option<BTreeMap<u32, W>>>) -> Seq<Option<Set<u32>>> {
    Seq::new(
        allowed.len(),
        |i: int|
            match allowed[i] {
                Some(ids) => Some(ids@.dom()),
                None => None,
            },
    )
}

/// Coordinates and contents of listed cells.
pub open spec fn listed<V>(out: Seq<(Vec<u32>, &V)>) -> Seq<(Seq<u32>, V)> {
    Seq::new(out.len(), |i: int| (out[i].0@, *out[i].1))
}

/// Every coordinate with `prefix` before it.
pub open spec fn prefixed<V>(prefix: Seq<u32>, cells: Seq<(Seq<u32>, V)>) -> Seq<(Seq<u32>, V)> {
    Seq::new(cells.len(), |i: int| (prefix + cells[i].0, cells[i].1))
}

/// Cells of one child more, each with what leads to the child before it.
proof fn prefixed_in_turn<V>(
    prefix: Seq<u32>,
    first: Seq<(Seq<u32>, V)>,
    id: u32,
    below: Seq<(Seq<u32>, V)>,
)
    ensures
        prefixed(prefix, first + prefixed(seq![id], below)) == prefixed(prefix, first) + prefixed(
            prefix.push(id),
            below,
        ),
{
    let more = prefixed(seq![id], below);
    assert forall|k: int| 0 <= k < below.len() implies prefix.push(id) + below[k].0 == prefix
        + more[k].0 by {
        assert(prefix.push(id) + below[k].0 =~= prefix + more[k].0);
    }
    assert(prefixed(prefix, first + more) =~= prefixed(prefix, first) + prefixed(
        prefix.push(id),
        below,
    ));
}

/// `out` lists the wanted cells of `node` below its children `ids`.
spec fn lists_below<V>(
    node: Node<V>,
    wanted: spec_fn(Seq<u32>) -> bool,
    ids: Seq<u32>,
    out: Seq<(Seq<u32>, V)>,
) -> bool {
    is_listing(
        node.cells(),
        |path: Seq<u32>| path.len() > 0 && ids.contains(path[0]) && wanted(path),
        out,
    )
}

/// The wanted rest of a path that starts with `id`.
spec fn wanted_after(wanted: spec_fn(Seq<u32>) -> bool, id: u32) -> spec_fn(Seq<u32>) -> bool {
    |rest: Seq<u32>| wanted(seq![id] + rest)
}

/// Adding the cells below the next child.
proof fn one_child_more<V>(
    node: Node<V>,
    wanted: spec_fn(Seq<u32>) -> bool,
    ids: Seq<u32>,
    id: u32,
    out: Seq<(Seq<u32>, V)>,
    below: Seq<(Seq<u32>, V)>,
)
    requires
        lists_below(node, wanted, ids, out),
        forall|i: int| 0 <= i < ids.len() ==> ids[i] < id,
        node.children@.contains_key(id),
        is_listing(node.children@[id].cells(), wanted_after(wanted, id), below),
    ensures
        lists_below(node, wanted, ids.push(id), out + prefixed(seq![id], below)),
{
    let more = prefixed(seq![id], below);
    let all = out + more;
    let cells = node.cells();
    let child = node.children@[id];
    let now = |path: Seq<u32>| path.len() > 0 && ids.push(id).contains(path[0]) && wanted(path);
    assert forall|i: int| 0 <= i < below.len() implies (#[trigger] more[i]).0[0] == id
        && more[i].0.skip(1) == below[i].0 && more[i].0.len() > 0 && now(more[i].0)
        && cells.contains_key(more[i].0) && cells[more[i].0] == more[i].1 by {
        assert(more[i].0.skip(1) =~= below[i].0);
        assert(ids.push(id)[ids.len() as int] == id);
        assert(wanted_after(wanted, id)(below[i].0));
        assert(child.cells().contains_key(below[i].0));
    }
    assert forall|i: int, j: int| 0 <= i < j < all.len() implies before(
        #[trigger] all[i].0,
        #[trigger] all[j].0,
    ) by {
        if j < out.len() {
            assert(before(out[i].0, out[j].0));
        } else if i >= out.len() {
            let a = i - out.len();
            let b = j - out.len();
            assert(before(below[a].0, below[b].0));
            assert(more[a].0[0] == id && more[b].0[0] == id);
        } else {
            assert(ids.contains(out[i].0[0]));
            assert(more[j - out.len()].0[0] == id);
        }
    }
    assert forall|i: int| 0 <= i < all.len() implies now(#[trigger] all[i].0) && cells.contains_key(
        all[i].0,
    ) && cells[all[i].0] == all[i].1 by {
        if i < out.len() {
            assert(ids.contains(out[i].0[0]));
            let k = choose|k: int| 0 <= k < ids.len() && ids[k] == out[i].0[0];
            assert(ids.push(id)[k] == out[i].0[0]);
        } else {
            assert(more[i - out.len()].0[0] == id);
        }
    }
    assert forall|path: Seq<u32>| #[trigger] cells.contains_key(path) && now(path) implies exists|
        i: int,
    | 0 <= i < all.len() && #[trigger] all[i].0 == path by {
        if path[0] == id {
            assert(seq![id] + path.skip(1) =~= path);
            assert(child.cells().contains_key(path.skip(1)));
            assert(wanted_after(wanted, id)(path.skip(1)));
            let k = choose|k: int| 0 <= k < below.len() && #[trigger] below[k].0 == path.skip(1);
            assert(more[k].0 =~= path);
            assert(all[out.len() + k].0 == path);
        } else {
            let k = choose|k: int| 0 <= k < ids.push(id).len() && ids.push(id)[k] == path[0];
            assert(ids[k] == path[0]);
            let m = choose|m: int| 0 <= m < out.len() && #[trigger] out[m].0 == path;
            assert(all[m].0 == path);
        }
    }
}

/// Nothing lies below a child that is not there.
proof fn absent_child<V>(
    node: Node<V>,
    wanted: spec_fn(Seq<u32>) -> bool,
    ids: Seq<u32>,
    id: u32,
    out: Seq<(Seq<u32>, V)>,
)
    requires
        lists_below(node, wanted, ids, out),
        !node.children@.contains_key(id),
    ensures
        lists_below(node, wanted, ids.push(id), out),
{
    let cells = node.cells();
    let was = |path: Seq<u32>| path.len() > 0 && ids.contains(path[0]) && wanted(path);
    let now = |path: Seq<u32>| path.len() > 0 && ids.push(id).contains(path[0]) && wanted(path);
    assert forall|path: Seq<u32>| cells.contains_key(path) && path.len() > 0 implies was(path)
        == now(path) by {
        assert(path[0] != id);
        if ids.contains(path[0]) {
            let k = choose|k: int| 0 <= k < ids.len() && ids[k] == path[0];
            assert(ids.push(id)[k] == path[0]);
        }
        if ids.push(id).contains(path[0]) {
            let k = choose|k: int| 0 <= k < ids.push(id).len() && ids.push(id)[k] == path[0];
            assert(ids[k] == path[0]);
        }
    }
}

/// A map that is not empty has a key.
proof fn lemma_some_key<V>(entries: Map<u32, V>)
    requires
        entries.len() > 0,
        entries.dom().finite(),
    ensures
        exists|id: u32| #[trigger] entries.contains_key(id),
{
    if forall|id: u32| !#[trigger] entries.contains_key(id) {
        assert(entries.dom() =~= Set::empty());
    }
}

impl<V> Node<V> {
    /// Puts `value` at the end of the path that starts at `coords[depth]`.
    fn put(&mut self, coords: &[u32], depth: usize, value: V)
        requires
            depth <= coords@.len(),
        ensures
            forall|path: Seq<u32>| #[trigger]
                final(self).at(path) == (if path == coords@.skip(depth as int) {
                    Some(value)
                } else {
                    old(self).at(path)
                }),
            final(self).is_live(),
            old(self).is_pruned() ==> final(self).is_pruned(),
        decreases coords@.len() - depth,
    {
        let ghost was = *self;
        let ghost rest = coords@.skip(depth as int);
        if depth == coords.len() {
            self.value = Some(value);
            proof {
                if was.is_pruned() {
                    assert forall|id: u32| #[trigger] self.children@.contains_key(id) implies
                        self.children@[id].is_live() && self.children@[id].is_pruned() by {
                        was.branches_are_pruned(id);
                    }
                    self.pruned_by_branches();
                }
            }
            assert(rest =~= Seq::<u32>::empty());
            assert forall|path: Seq<u32>| #[trigger] self.at(path) == (if path == rest {
                Some(value)
            } else {
                was.at(path)
            }) by {
                if path.len() == 0 {
                    assert(path =~= rest);
                }
            }
        } else {
            let id = coords[depth];
            let mut child = match self.children.remove(&id) {
                Some(child) => child,
                None => Node::new(),
            };
            let ghost below = child;
            proof {
                if was.is_pruned() && was.children@.contains_key(id) {
                    was.branches_are_pruned(id);
                }
            }
            child.put(coords, depth + 1, value);
            let ghost after = child;
            self.children.insert(id, child);
            proof {
                assert(self.children@.contains_key(id));
                if was.is_pruned() {
                    assert forall|k: u32| #[trigger] self.children@.contains_key(k) implies
                        self.children@[k].is_live() && self.children@[k].is_pruned() by {
                        if k != id {
                            was.branches_are_pruned(k);
                        }
                    }
                    self.pruned_by_branches();
                }
            }
            assert(rest.skip(1) =~= coords@.skip(depth as int + 1));
            assert forall|path: Seq<u32>| #[trigger] self.at(path) == (if path == rest {
                Some(value)
            } else {
                was.at(path)
            }) by {
                if path.len() > 0 && path[0] == id {
                    let tail = path.skip(1);
                    assert(self.at(path) == after.at(tail));
                    assert(was.at(path) == below.at(tail));
                    if tail == rest.skip(1) {
                        assert(path =~= seq![id] + tail);
                        assert(rest =~= seq![id] + tail);
                    }
                }
            }
        }
        assert(self.at(rest) is Some);
    }

    /// The value at the end of `coords`.
    fn get(&self, coords: &[u32], depth: usize) -> (r: Option<&V>)
        requires
            depth <= coords@.len(),
        ensures
            match r {
                Some(v) => self.at(coords@.skip(depth as int)) == Some(*v),
                None => self.at(coords@.skip(depth as int)) is None,
            },
        decreases coords@.len() - depth,
    {
        let ghost rest = coords@.skip(depth as int);
        if depth == coords.len() {
            match &self.value {
                Some(v) => Some(v),
                None => None,
            }
        } else {
            assert(rest.skip(1) =~= coords@.skip(depth as int + 1));
            match self.children.get(&coords[depth]) {
                Some(child) => child.get(coords, depth + 1),
                None => None,
            }
        }
    }

    /// Drops every path whose id at position `index` (counted from here) is
    /// `target`, and the branches that this leaves empty.
    fn prune(&mut self, index: usize, target: u32)
        ensures
            forall|path: Seq<u32>| #[trigger]
                final(self).at(path) == (if path.len() > index && path[index as int] == target {
                    None
                } else {
                    old(self).at(path)
                }),
            old(self).is_pruned() ==> final(self).is_pruned(),
        decreases index,
    {
        let ghost was = *self;
        if index == 0 {
            self.children.remove(&target);
            proof {
                if was.is_pruned() {
                    assert forall|id: u32| #[trigger] self.children@.contains_key(id) implies
                        self.children@[id].is_live() && self.children@[id].is_pruned() by {
                        was.branches_are_pruned(id);
                    }
                    self.pruned_by_branches();
                }
            }
            assert forall|path: Seq<u32>| #[trigger] self.at(path) == (if path.len() > index
                && path[index as int] == target {
                None
            } else {
                was.at(path)
            }) by {}
        } else {
            let keys = sorted_keys(&self.children);
            let mut i: usize = 0;
            while i < keys.len()
                invariant
                    index > 0,
                    ascending(keys@),
                    keys@.to_set() == was.children@.dom(),
                    i <= keys@.len(),
                    self.value == was.value,
                    forall|k: u32|
                        self.children@.contains_key(k) ==> was.children@.contains_key(k),
                    forall|j: int| #![trigger keys@[j]]
                        i <= j < keys@.len() ==> self.children@.contains_key(keys@[j])
                            && self.children@[keys@[j]] == was.children@[keys@[j]],
                    was.is_pruned() ==> forall|j: int| #![trigger keys@[j]]
                        0 <= j < i && self.children@.contains_key(keys@[j])
                            ==> self.children@[keys@[j]].is_live()
                            && self.children@[keys@[j]].is_pruned(),
                    forall|j: int, rest: Seq<u32>| #![trigger keys@[j], was.children@[keys@[j]].at(rest)]
                        0 <= j < i ==> (if self.children@.contains_key(keys@[j]) {
                            self.children@[keys@[j]].at(rest)
                        } else {
                            None
                        }) == (if rest.len() > index - 1 && rest[index - 1] == target {
                            None
                        } else {
                            was.children@[keys@[j]].at(rest)
                        }),
                decreases keys@.len() - i,
            {
                let id = keys[i];
                assert(keys@.to_set().contains(id));
                let ghost start = self.children@;
                match self.children.remove(&id) {
                    Some(mut child) => {
                        let ghost below = child;
                        proof {
                            if was.is_pruned() {
                                was.branches_are_pruned(id);
                            }
                        }
                        child.prune(index - 1, target);
                        let ghost after = child;
                        let kept = child.value.is_some() || !child.children.is_empty();
                        proof {
                            if kept && was.is_pruned() {
                                if after.value is None {
                                    lemma_some_key(after.children@);
                                    let below = choose|k: u32| #[trigger]
                                        after.children@.contains_key(k);
                                    after.branches_are_pruned(below);
                                }
                                after.live_by_branches();
                            }
                        }
                        if kept {
                            self.children.insert(id, child);
                        }
                        assert forall|rest: Seq<u32>| #[trigger]
                            below.at(rest) == below.at(rest) implies (if kept {
                            after.at(rest)
                        } else {
                            None
                        }) == (if rest.len() > index - 1 && rest[index - 1] == target {
                            None
                        } else {
                            below.at(rest)
                        }) by {
                            assert(after.at(rest) is Some ==> kept);
                        }
                        assert(below == was.children@[id]);
                    },
                    None => {},
                }
                i += 1;
            }
            proof {
                if was.is_pruned() {
                    assert forall|id: u32| #[trigger] self.children@.contains_key(id) implies
                        self.children@[id].is_live() && self.children@[id].is_pruned() by {
                        assert(keys@.to_set().contains(id));
                        let j = choose|j: int| 0 <= j < keys@.len() && keys@[j] == id;
                        assert(keys@[j] == id);
                    }
                    self.pruned_by_branches();
                }
            }
            assert forall|path: Seq<u32>| #[trigger] self.at(path) == (if path.len() > index
                && path[index as int] == target {
                None
            } else {
                was.at(path)
            }) by {
                if path.len() > 0 {
                    let k = path[0];
                    let rest = path.skip(1);
                    assert(path.len() > index ==> path[index as int] == rest[index - 1]);
                    if was.children@.contains_key(k) {
                        assert(keys@.to_set().contains(k));
                        let j = choose|j: int| 0 <= j < keys@.len() && keys@[j] == k;
                        assert(was.children@[keys@[j]].at(rest) == was.at(path));
                    }
                }
            }
        }
    }

    /// Lists the cells that the filters from `depth` on let through, each with
    /// `path` before its coordinates.
    #[verifier::spinoff_prover]
    fn scan<'a, W>(
        &'a self,
        allowed: &Vec<Option<BTreeMap<u32, W>>>,
        depth: usize,
        path: &mut Vec<u32>,
        out: &mut Vec<(Vec<u32>, &'a V)>,
    ) -> (found: Ghost<Seq<(Seq<u32>, V)>>)
        requires
            depth <= allowed@.len(),
        ensures
            final(path)@ == old(path)@,
            is_listing(
                self.cells(),
                |p: Seq<u32>| admits(allowed_ids(allowed@).skip(depth as int), p),
                found@,
            ),
            listed(final(out)@) == listed(old(out)@) + prefixed(old(path)@, found@),
        decreases allowed@.len() - depth,
    {
        let ghost filters = allowed_ids(allowed@).skip(depth as int);
        let ghost wanted = |p: Seq<u32>| admits(filters, p);
        let ghost start = listed(out@);
        let ghost prefix = path@;
        if depth == allowed.len() {
            let ghost mut found: Seq<(Seq<u32>, V)> = Seq::empty();
            match &self.value {
                Some(v) => {
                    let here = copy_ids(path.as_slice());
                    out.push((here, v));
                    proof {
                        found = seq![(Seq::<u32>::empty(), *v)];
                        assert(prefix + Seq::<u32>::empty() =~= prefix);
                        assert(self.cells().contains_key(Seq::<u32>::empty()));
                        assert(found[0].0 == Seq::<u32>::empty());
                    }
                },
                None => {},
            }
            assert(listed(out@) =~= start + prefixed(prefix, found));
            assert forall|p: Seq<u32>| #[trigger] self.cells().contains_key(p) && wanted(p) implies p
                == Seq::<u32>::empty() by {
                assert(p =~= Seq::<u32>::empty());
            }
            return Ghost(found);
        }
        let ids = match &allowed[depth] {
            Some(ids) => sorted_keys(ids),
            None => sorted_keys(&self.children),
        };
        let ghost mut found: Seq<(Seq<u32>, V)> = Seq::empty();
        let mut i: usize = 0;
        let next = depth + 1;
        assert(ids@.take(0) =~= Seq::<u32>::empty());
        assert(lists_below(*self, wanted, ids@.take(0), found));
        assert(listed(out@) =~= start + prefixed(prefix, found));
        while i < ids.len()
            invariant
                depth < allowed@.len(),
                next == depth + 1,
                filters == allowed_ids(allowed@).skip(depth as int),
                wanted == |p: Seq<u32>| admits(filters, p),
                ascending(ids@),
                match allowed@[depth as int] {
                    Some(set) => ids@.to_set() == set@.dom(),
                    None => ids@.to_set() == self.children@.dom(),
                },
                i <= ids@.len(),
                path@ == prefix,
                lists_below(*self, wanted, ids@.take(i as int), found),
                listed(out@) == start + prefixed(prefix, found),
            decreases ids@.len() - i,
        {
            let id = ids[i];
            assert(ids@.take(i as int + 1) =~= ids@.take(i as int).push(id));
            match self.children.get(&id) {
                Some(child) => {
                    path.push(id);
                    let Ghost(below) = child.scan(allowed, next, path, out);
                    path.pop();
                    assert(path@ =~= prefix);
                    proof {
                        assert(ids@.to_set().contains(id));
                        assert(filters.skip(1) =~= allowed_ids(allowed@).skip(depth as int + 1));
                        let after = |p: Seq<u32>| admits(filters.skip(1), p);
                        assert forall|rest: Seq<u32>| #[trigger] wanted_after(wanted, id)(rest) == after(rest) by {
                            let whole = seq![id] + rest;
                            if after(rest) {
                                assert forall|k: int| 0 <= k < whole.len() implies (
                                #[trigger] filters[k] matches Some(set) ==> set.contains(whole[k])) by {
                                    if k > 0 {
                                        assert(filters.skip(1)[k - 1] == filters[k]);
                                    }
                                }
                            }
                            if wanted(whole) {
                                assert forall|k: int| 0 <= k < rest.len() implies (
                                #[trigger] filters.skip(1)[k] matches Some(set) ==> set.contains(
                                    rest[k],
                                )) by {
                                    assert(filters[k + 1] == filters.skip(1)[k]);
                                    assert(whole[k + 1] == rest[k]);
                                }
                            }
                        }
                        assert(wanted_after(wanted, id) =~= after);
                        one_child_more(*self, wanted, ids@.take(i as int), id, found, below);
                        let more = prefixed(seq![id], below);
                        prefixed_in_turn(prefix, found, id, below);
                        assert(listed(out@) =~= start + prefixed(prefix, found + more));
                        found = found + more;
                    }
                },
                None => {
                    proof {
                        absent_child(*self, wanted, ids@.take(i as int), id, found);
                    }
                },
            }
            i += 1;
        }
        proof {
            assert(ids@.take(i as int) =~= ids@);
            let below = |p: Seq<u32>| p.len() > 0 && ids@.contains(p[0]) && wanted(p);
            assert forall|p: Seq<u32>| #[trigger] self.cells().contains_key(p) && wanted(p) implies below(
                p,
            ) by {
                assert(filters[0] == allowed_ids(allowed@)[depth as int]);
                assert(ids@.to_set().contains(p[0]));
            }
        }
        Ghost(found)
    }

    /// Lists every cell, each with `path` before its coordinates.
    #[verifier::spinoff_prover]
    fn walk<'a>(&'a self, path: &mut Vec<u32>, out: &mut Vec<(Vec<u32>, &'a V)>) -> (found: Ghost<
        Seq<(Seq<u32>, V)>,
    >)
        ensures
            final(path)@ == old(path)@,
            is_listing(self.cells(), |p: Seq<u32>| true, found@),
            listed(final(out)@) == listed(old(out)@) + prefixed(old(path)@, found@),
        decreases self,
    {
        let ghost wanted = |p: Seq<u32>| true;
        let ghost start = listed(out@);
        let ghost prefix = path@;
        let ghost mut here: Seq<(Seq<u32>, V)> = Seq::empty();
        match &self.value {
            Some(v) => {
                let at = copy_ids(path.as_slice());
                out.push((at, v));
                proof {
                    here = seq![(Seq::<u32>::empty(), *v)];
                    assert(prefix + Seq::<u32>::empty() =~= prefix);
                }
            },
            None => {},
        }
        assert(listed(out@) =~= start + prefixed(prefix, here));
        let ids = sorted_keys(&self.children);
        let ghost mut found: Seq<(Seq<u32>, V)> = Seq::empty();
        let mut i: usize = 0;
        assert(ids@.take(0) =~= Seq::<u32>::empty());
        assert(lists_below(*self, wanted, ids@.take(0), found));
        assert(here + found =~= here);
        while i < ids.len()
            invariant
                wanted == |p: Seq<u32>| true,
                ascending(ids@),
                ids@.to_set() == self.children@.dom(),
                i <= ids@.len(),
                path@ == prefix,
                lists_below(*self, wanted, ids@.take(i as int), found),
                listed(out@) == start + prefixed(prefix, here + found),
            decreases ids@.len() - i,
        {
            let id = ids[i];
            assert(ids@.to_set().contains(id));
            assert(ids@.take(i as int + 1) =~= ids@.take(i as int).push(id));
            match self.children.get(&id) {
                Some(child) => {
                    path.push(id);
                    assert(decreases_to!(self => self.children@[id]));
                    let Ghost(below) = child.walk(path, out);
                    path.pop();
                    assert(path@ =~= prefix);
                    proof {
                        assert(wanted_after(wanted, id) =~= |p: Seq<u32>| true);
                        one_child_more(*self, wanted, ids@.take(i as int), id, found, below);
                        let more = prefixed(seq![id], below);
                        prefixed_in_turn(prefix, here + found, id, below);
                        assert((here + found) + more =~= here + (found + more));
                        assert(listed(out@) =~= start + prefixed(prefix, here + (found + more)));
                        found = found + more;
                    }
                },
                None => {},
            }
            i += 1;
        }
        proof {
            assert(ids@.take(i as int) =~= ids@);
            let all = here + found;
            let below = |p: Seq<u32>| p.len() > 0 && ids@.contains(p[0]) && wanted(p);
            assert(is_listing(self.cells(), below, found));
            assert forall|p: Seq<u32>| #[trigger] self.cells().contains_key(p) && wanted(p) implies exists|
                k: int,
            | 0 <= k < all.len() && #[trigger] all[k].0 == p by {
                if p.len() == 0 {
                    assert(p =~= Seq::<u32>::empty());
                    assert(all[0].0 == p);
                } else {
                    assert(ids@.to_set().contains(p[0]));
                    assert(below(p));
                    let k = choose|k: int| 0 <= k < found.len() && #[trigger] found[k].0 == p;
                    assert(all[here.len() + k].0 == p);
                }
            }
            assert forall|a: int, b: int| 0 <= a < b < all.len() implies before(
                #[trigger] all[a].0,
                #[trigger] all[b].0,
            ) by {
                if b >= here.len() {
                    assert(below(found[b - here.len()].0));
                    if a >= here.len() {
                        assert(before(found[a - here.len()].0, found[b - here.len()].0));
                    }
                }
            }
            assert forall|k: int| 0 <= k < all.len() implies wanted(#[trigger] all[k].0)
                && self.cells().contains_key(all[k].0) && self.cells()[all[k].0] == all[k].1 by {
                if k >= here.len() {
                    assert(below(found[k - here.len()].0));
                }
            }
        }
        Ghost(here + found)
    }
}

// ---------------------------------------------------------------------------
// The store
// ---------------------------------------------------------------------------

/// The stored cells with text as characters.
pub open spec fn modelled<N: Number>(cells: Map<Seq<u32>, CellValue<N>>) -> Map<
    Seq<u32>,
    CellModel<N>,
> {
    Map::new(|path: Seq<u32>| cells.contains_key(path), |path: Seq<u32>| cells[path]@)
}

pub broadcast proof fn modelled_insert<N: Number>(
    cells: Map<Seq<u32>, CellValue<N>>,
    path: Seq<u32>,
    value: CellValue<N>,
)
    ensures
        #[trigger] modelled(cells.insert(path, value)) == modelled(cells).insert(path, value@),
{
    assert(modelled(cells.insert(path, value)) =~= modelled(cells).insert(path, value@));
}

pub broadcast proof fn modelled_restrict<N: Number>(
    cells: Map<Seq<u32>, CellValue<N>>,
    paths: Set<Seq<u32>>,
)
    ensures
        #[trigger] modelled(cells.restrict(paths)) == modelled(cells).restrict(paths),
{
    assert(modelled(cells.restrict(paths)) =~= modelled(cells).restrict(paths));
}

/// Listed cells with text as characters.
pub open spec fn modelled_list<N: Number>(cells: Seq<(Seq<u32>, CellValue<N>)>) -> Seq<
    (Seq<u32>, CellModel<N>),
> {
    Seq::new(cells.len(), |i: int| (cells[i].0, cells[i].1@))
}

/// It is the same to list the cells and to list their models.
pub proof fn listing_of_models<N: Number>(
    cells: Map<Seq<u32>, CellValue<N>>,
    wanted: spec_fn(Seq<u32>) -> bool,
    out: Seq<(Seq<u32>, CellValue<N>)>,
)
    requires
        is_listing(cells, wanted, out),
    ensures
        is_listing(modelled(cells), wanted, modelled_list(out)),
        modelled_list(out) == listing(modelled(cells), wanted),
{
    let models = modelled_list(out);
    assert forall|path: Seq<u32>| #[trigger]
        modelled(cells).contains_key(path) && wanted(path) implies exists|i: int|
        0 <= i < models.len() && #[trigger] models[i].0 == path by {
        assert(cells.contains_key(path));
        let i = choose|i: int| 0 <= i < out.len() && #[trigger] out[i].0 == path;
        assert(models[i].0 == path);
    }
    assert forall|i: int, j: int| 0 <= i < j < models.len() implies before(
        #[trigger] models[i].0,
        #[trigger] models[j].0,
    ) by {
        assert(before(out[i].0, out[j].0));
    }
    assert forall|i: int| 0 <= i < models.len() implies wanted(#[trigger] models[i].0) && modelled(
        cells,
    ).contains_key(models[i].0) && modelled(cells)[models[i].0] == models[i].1 by {
        assert(wanted(out[i].0));
    }
    listing_is_unique(modelled(cells), wanted, models);
}

/// The ids of a coordinate in writing.
pub open spec fn coordinates_text(path: Seq<u32>) -> Seq<char> {
    "["@ + joined(Seq::new(path.len(), |i: int| decimal(path[i] as nat)), ", "@) + "]"@
}

fn show_coordinates(path: &Vec<u32>) -> (r: String)
    ensures
        r@ == coordinates_text(path@),
{
    let mut parts: Vec<String> = Vec::new();
    let ghost ids = Seq::new(path@.len(), |i: int| decimal(path@[i] as nat));
    for i in 0..path.len()
        invariant
            ids == Seq::new(path@.len(), |i: int| decimal(path@[i] as nat)),
            texts(parts@) == ids.take(i as int),
    {
        let ghost before = texts(parts@);
        parts.push(decimal_text(path[i] as u128));
        assert(texts(parts@) =~= before.push(ids[i as int]));
        assert(texts(parts@) =~= ids.take(i as int + 1));
    }
    assert(ids.take(ids.len() as int) =~= ids);
    cat3("[", join(&parts, ", ").as_str(), "]")
}

/// One cell in the listing of a store.
pub open spec fn cell_line<N: Number>(cell: (Seq<u32>, CellModel<N>)) -> Seq<char> {
    "    Coords: "@ + coordinates_text(cell.0) + " -> Value: "@ + cell.1.shown()
}

/// The listing of a store.
pub open spec fn store_text<N: Number>(cells: Map<Seq<u32>, CellModel<N>>) -> Seq<char> {
    if exists|path: Seq<u32>| #[trigger] cells.contains_key(path) && path.len() > 0 {
        let listed = listing(cells, |p: Seq<u32>| true);
        lines(Seq::new(listed.len(), |i: int| cell_line(listed[i])))
    } else {
        lines(seq!["    (Trie is empty)"@])
    }
}

/// A sparse store: only coordinates that were written take room.
pub struct SparseStore<V> {
    root: Node<V>,
    dim_count: usize,
}

impl<V> View for SparseStore<V> {
    type V = Map<Seq<u32>, V>;

    /// The stored values by coordinate.
    closed spec fn view(&self) -> Map<Seq<u32>, V> {
        self.root.cells()
    }
}

impl<V> SparseStore<V> {
    pub closed spec fn dim_count_spec(self) -> usize {
        self.dim_count
    }

    /// Every branch of the trie leads to a value.
    pub closed spec fn is_pruned(self) -> bool {
        self.root.is_pruned()
    }

    pub fn new(dim_count: usize) -> (r: Self)
        ensures
            r@ == Map::<Seq<u32>, V>::empty(),
            r.is_pruned(),
            r.dim_count_spec() == dim_count,
    {
        SparseStore { root: Node::new(), dim_count }
    }

    /// The number of dimensions that the store was made for.
    pub fn dim_count(&self) -> (r: usize)
        ensures
            r == self.dim_count_spec(),
    {
        self.dim_count
    }

    /// Stores `value` at `coords`, over whatever was there.
    pub fn write(&mut self, coords: &[u32], value: V)
        ensures
            final(self)@ == old(self)@.insert(coords@, value),
            old(self).is_pruned() ==> final(self).is_pruned(),
            final(self).dim_count_spec() == old(self).dim_count_spec(),
    {
        let ghost was = self.root;
        assert(coords@.skip(0) =~= coords@);
        self.root.put(coords, 0, value);
        assert(self.root.cells() =~= was.cells().insert(coords@, value));
    }

    /// The value stored at exactly `coords`.
    pub fn query_exact(&self, coords: &[u32]) -> (r: Option<&V>)
        ensures
            match r {
                Some(v) => self@.contains_key(coords@) && self@[coords@] == *v,
                None => !self@.contains_key(coords@),
            },
    {
        assert(coords@.skip(0) =~= coords@);
        self.root.get(coords, 0)
    }

    /// Removes every value whose coordinate at `dim_index` is `target_id`, and the
    /// branches that this leaves empty.
    pub fn remove_cells_with_id_at(&mut self, dim_index: usize, target_id: u32)
        ensures
            old(self).is_pruned() ==> final(self).is_pruned(),
            final(self)@ == old(self)@.restrict(
                Set::new(
                    |path: Seq<u32>| !(path.len() > dim_index && path[dim_index as int] == target_id),
                ),
            ),
            final(self).dim_count_spec() == old(self).dim_count_spec(),
    {
        let ghost was = self.root;
        self.root.prune(dim_index, target_id);
        assert(self.root.cells() =~= was.cells().restrict(
            Set::new(
                |path: Seq<u32>| !(path.len() > dim_index && path[dim_index as int] == target_id),
            ),
        ));
    }

    /// The values whose coordinates the filters let through, in the order of
    /// their coordinates. Each filter is the ids it lets through (the keys of
    /// the map), or none to let all through.
    pub fn scan_subcube<W>(&self, allowed: &Vec<Option<BTreeMap<u32, W>>>) -> (r: Vec<
        (Vec<u32>, &V),
    >)
        ensures
            listed(r@) == listing(self@, |p: Seq<u32>| admits(allowed_ids(allowed@), p)),
            is_listing(self@, |p: Seq<u32>| admits(allowed_ids(allowed@), p), listed(r@)),
    {
        let mut out: Vec<(Vec<u32>, &V)> = Vec::new();
        let mut path: Vec<u32> = Vec::new();
        let Ghost(found) = self.root.scan(allowed, 0, &mut path, &mut out);
        proof {
            assert(allowed_ids(allowed@).skip(0) =~= allowed_ids(allowed@));
            assert(listed(out@) =~= found) by {
                assert forall|i: int| 0 <= i < found.len() implies Seq::<u32>::empty() + found[i].0
                    == found[i].0 by {
                    assert(Seq::<u32>::empty() + found[i].0 =~= found[i].0);
                }
            }
            listing_is_unique(
                self@,
                |p: Seq<u32>| admits(allowed_ids(allowed@), p),
                found,
            );
        }
        out
    }

    /// All values, in the order of their coordinates.
    pub fn all_cells(&self) -> (r: Vec<(Vec<u32>, &V)>)
        ensures
            listed(r@) == listing(self@, |p: Seq<u32>| true),
            is_listing(self@, |p: Seq<u32>| true, listed(r@)),
    {
        let mut out: Vec<(Vec<u32>, &V)> = Vec::new();
        let mut path: Vec<u32> = Vec::new();
        let Ghost(found) = self.root.walk(&mut path, &mut out);
        proof {
            assert(listed(out@) =~= found) by {
                assert forall|i: int| 0 <= i < found.len() implies Seq::<u32>::empty() + found[i].0
                    == found[i].0 by {
                    assert(Seq::<u32>::empty() + found[i].0 =~= found[i].0);
                }
            }
            listing_is_unique(self@, |p: Seq<u32>| true, found);
        }
        out
    }
}

impl<N: Number> SparseStore<CellValue<N>> {
    /// Appends every cell, one to a line, in the order of the coordinates.
    pub fn print_tree(&self, out: &mut String)
        ensures
            final(out)@ == old(out)@ + store_text(modelled(self@)),
    {
        let cells = self.all_cells();
        let ghost cell_list = modelled_list(listed(cells@));
        let ghost all = |p: Seq<u32>| true;
        proof {
            listing_of_models(self@, all, listed(cells@));
        }
        let mut deep = false;
        let mut i: usize = 0;
        while i < cells.len()
            invariant
                i <= cells@.len(),
                deep == exists|k: int| 0 <= k < i && (#[trigger] cells@[k]).0@.len() > 0,
            decreases cells@.len() - i,
        {
            if cells[i].0.len() > 0 {
                deep = true;
            }
            i += 1;
        }
        let ghost start = out@;
        if !deep {
            push_line(out, "    (Trie is empty)");
            proof {
                assert forall|path: Seq<u32>| #[trigger]
                    modelled(self@).contains_key(path) implies path.len() == 0 by {
                    let k = choose|k: int|
                        0 <= k < cell_list.len() && #[trigger] cell_list[k].0 == path;
                    assert(cells@[k].0@ == path);
                }
                let parts = seq!["    (Trie is empty)"@];
                assert(lines(parts.drop_last()) =~= Seq::<char>::empty());
                assert(out@ =~= start + lines(parts));
            }
            return ;
        }
        proof {
            let k = choose|k: int| 0 <= k < cells@.len() && (#[trigger] cells@[k]).0@.len() > 0;
            assert(cell_list[k].0 == cells@[k].0@);
            assert(modelled(self@).contains_key(cells@[k].0@));
        }
        let ghost parts = Seq::new(cell_list.len(), |k: int| cell_line(cell_list[k]));
        assert(parts.take(0) =~= Seq::<Seq<char>>::empty());
        assert(out@ =~= start + lines(parts.take(0)));
        for i in 0..cells.len()
            invariant
                cell_list == modelled_list(listed(cells@)),
                parts == Seq::new(cell_list.len(), |k: int| cell_line(cell_list[k])),
                out@ == start + lines(parts.take(i as int)),
        {
            let line = cat4(
                "    Coords: ",
                show_coordinates(&cells[i].0).as_str(),
                " -> Value: ",
                cells[i].1.shown().as_str(),
            );
            push_line(out, line.as_str());
            assert(line@ == parts[i as int]);
            assert(parts.take(i as int + 1).drop_last() =~= parts.take(i as int));
            assert(out@ =~= start + lines(parts.take(i as int + 1)));
        }
        assert(parts.take(parts.len() as int) =~= parts);
    }
}

/// Of two cells the one is listed first that has the lesser id in the first dimension in
/// which they differ.
pub proof fn the_first_difference_orders_cells(
    front: Seq<u32>,
    a: u32,
    b: u32,
    back: Seq<u32>,
    other: Seq<u32>,
)
    requires
        a != b,
    ensures
        before(front.push(a) + back, front.push(b) + other) == (a < b),
    decreases front.len(),
{
    let (x, y) = (front.push(a) + back, front.push(b) + other);
    if front.len() > 0 {
        let rest = front.skip(1);
        the_first_difference_orders_cells(rest, a, b, back, other);
        assert(x.skip(1) =~= rest.push(a) + back);
        assert(y.skip(1) =~= rest.push(b) + other);
        assert(x[0] == front[0] && y[0] == front[0]);
    } else {
        assert(x[0] == a && y[0] == b);
    }
}

} // verus!
