use crate::number::Number;
use std::collections::BTreeMap;
use vstd::prelude::*;

verus! {

/// What a cell holds.
#[derive(Debug, PartialEq)]
pub enum CellValue<N> {
    Numeric(N),
    String(String),
}

/// What a cell holds, with text as characters.
pub enum CellModel<N> {
    Numeric(N),
    Text(Seq<char>),
}

impl<N: Number> View for CellValue<N> {
    type V = CellModel<N>;

    open spec fn view(&self) -> CellModel<N> {
        match self {
            CellValue::Numeric(n) => CellModel::Numeric(*n),
            CellValue::String(s) => CellModel::Text(s@),
        }
    }
}

impl<N: Number> CellModel<N> {
    /// The cell in writing.
    pub open spec fn shown(self) -> Seq<char> {
        match self {
            CellModel::Numeric(n) => n.shown_spec(),
            CellModel::Text(s) => s,
        }
    }

    /// The cell that `text` stands for: a number where it writes one.
    pub open spec fn read(text: Seq<char>, otherwise: Seq<char>) -> CellModel<N> {
        match N::read_spec(text) {
            Some(n) => CellModel::Numeric(n),
            None => CellModel::Text(otherwise),
        }
    }

    /// The amount in the cell; a text counts as nought.
    pub open spec fn amount(self) -> N {
        match self {
            CellModel::Numeric(n) => n,
            CellModel::Text(_) => N::zero_spec(),
        }
    }
}

impl<N: Number> CellValue<N> {
    pub fn copy(&self) -> (r: Self)
        ensures
            r@ == self@,
    {
        match self {
            CellValue::Numeric(n) => CellValue::Numeric(*n),
            CellValue::String(s) => CellValue::String(s.clone()),
        }
    }

    /// The cell that `text` stands for: a number where it writes one, and
    /// otherwise the other text.
    pub fn read(text: &str, otherwise: String) -> (r: Self)
        ensures
            r@ == CellModel::<N>::read(text@, otherwise@),
    {
        match N::read(text) {
            Some(n) => CellValue::Numeric(n),
            None => CellValue::String(otherwise),
        }
    }

    /// The cell in writing.
    pub fn shown(&self) -> (r: String)
        ensures
            r@ == self@.shown(),
    {
        match self {
            CellValue::Numeric(n) => n.shown(),
            CellValue::String(s) => s.clone(),
        }
    }
}

/// A node of the trie: the value at the path that leads here, and the paths
/// that go on from here by their next id.
#[derive(Debug)]
pub struct Node<V> {
    pub children: BTreeMap<u32, Node<V>>,
    pub value: Option<V>,
}

impl<V> Node<V> {
    /// The value at the end of `path`.
    pub open spec fn at(self, path: Seq<u32>) -> Option<V>
        decreases path.len(),
    {
        if path.len() == 0 {
            self.value
        } else if self.children@.contains_key(path[0]) {
            self.children@[path[0]].at(path.skip(1))
        } else {
            None
        }
    }

    /// The node at the end of `path`.
    pub open spec fn branch(self, path: Seq<u32>) -> Option<Node<V>>
        decreases path.len(),
    {
        if path.len() == 0 {
            Some(self)
        } else if self.children@.contains_key(path[0]) {
            self.children@[path[0]].branch(path.skip(1))
        } else {
            None
        }
    }

    /// Something is stored from here on.
    pub open spec fn is_live(self) -> bool {
        exists|path: Seq<u32>| #[trigger] self.at(path) is Some
    }

    /// Every branch leads to something that is stored.
    pub open spec fn is_pruned(self) -> bool {
        forall|path: Seq<u32>|
            path.len() > 0 && #[trigger] self.branch(path) is Some ==> self.branch(
                path,
            )->0.is_live()
    }

    /// Something is stored from a node on where something is stored at it, or from
    /// a branch of it on.
    pub proof fn live_by_branches(self)
        requires
            self.value is Some || exists|id: u32| #[trigger]
                self.children@.contains_key(id) && self.children@[id].is_live(),
        ensures
            self.is_live(),
    {
        if self.value is Some {
            assert(self.at(Seq::empty()) is Some);
        } else {
            let id = choose|id: u32| #[trigger]
                self.children@.contains_key(id) && self.children@[id].is_live();
            let rest = choose|path: Seq<u32>| #[trigger] self.children@[id].at(path) is Some;
            let path = seq![id] + rest;
            assert(path.skip(1) =~= rest);
            assert(self.at(path) is Some);
        }
    }

    /// What goes on from a node without empty branches is live, and has none.
    pub proof fn branches_are_pruned(self, id: u32)
        requires
            self.is_pruned(),
            self.children@.contains_key(id),
        ensures
            self.children@[id].is_live(),
            self.children@[id].is_pruned(),
    {
        let child = self.children@[id];
        let one = seq![id];
        assert(one.skip(1) =~= Seq::<u32>::empty());
        assert(self.branch(one) == child.branch(one.skip(1)));
        assert(self.branch(one) == Some(child));
        assert forall|path: Seq<u32>|
            path.len() > 0 && #[trigger] child.branch(path) is Some implies child.branch(
            path,
        )->0.is_live() by {
            let whole = seq![id] + path;
            assert(whole.skip(1) =~= path);
            assert(self.branch(whole) == child.branch(path));
        }
    }

    /// A node has no empty branches where all that goes on from it is live and
    /// has none.
    pub proof fn pruned_by_branches(self)
        requires
            forall|id: u32| #[trigger]
                self.children@.contains_key(id) ==> self.children@[id].is_live()
                    && self.children@[id].is_pruned(),
        ensures
            self.is_pruned(),
    {
        assert forall|path: Seq<u32>|
            path.len() > 0 && #[trigger] self.branch(path) is Some implies self.branch(
            path,
        )->0.is_live() by {
            let child = self.children@[path[0]];
            assert(self.children@.contains_key(path[0]));
            assert(self.branch(path) == child.branch(path.skip(1)));
            if path.len() == 1 {
                assert(path.skip(1) =~= Seq::<u32>::empty());
            }
        }
    }

    /// Everything stored from here on, by path.
    pub open spec fn cells(self) -> Map<Seq<u32>, V> {
        Map::new(|path: Seq<u32>| self.at(path) is Some, |path: Seq<u32>| self.at(path)->0)
    }

    pub fn new() -> (r: Self)
        ensures
            forall|path: Seq<u32>| #[trigger] r.at(path) is None,
            r.cells() == Map::<Seq<u32>, V>::empty(),
            r.is_pruned(),
    {
        let r = Node { children: BTreeMap::new(), value: None };
        assert(r.cells() =~= Map::<Seq<u32>, V>::empty());
        r
    }
}

impl<V> Default for Node<V> {
    fn default() -> (r: Self)
        ensures
            r.cells() == Map::<Seq<u32>, V>::empty(),
            r.is_pruned(),
    {
        Node::new()
    }
}

} // verus!
