//! The append-only store of discovered nodes.
//!
//! Nodes live in a flat arena and name their parent by index. Index 0 is the
//! source of the search; every other node was discovered from an earlier one.

use vstd::prelude::*;
use crate::text::texts;

verus! {

/// A discovered page: its identifier and the node it was discovered from.
#[derive(Debug, PartialEq, Eq)]
pub struct Node {
    pub parent: Option<usize>,
    pub link: String,
}

/// The mathematical model of a `Node`.
pub struct NodeModel {
    pub parent: Option<usize>,
    pub link: Seq<char>,
}

impl View for Node {
    type V = NodeModel;

    open spec fn view(&self) -> NodeModel {
        NodeModel { parent: self.parent, link: self.link@ }
    }
}

/// Some node of `g` carries the identifier `link`.
pub open spec fn contains_link(g: Seq<NodeModel>, link: Seq<char>) -> bool {
    exists|i: int| 0 <= i < g.len() && #[trigger] g[i].link == link
}

/// No two nodes of `g` carry the same identifier.
pub open spec fn links_unique(g: Seq<NodeModel>) -> bool {
    forall|i: int, j: int|
        0 <= i < g.len() && 0 <= j < g.len() && i != j ==> #[trigger] g[i].link != #[trigger] g[j].link
}

/// The shape every store has: a parentless root at index 0, every other node
/// with a parent at a smaller index, and no identifier stored twice.
pub open spec fn well_formed(g: Seq<NodeModel>) -> bool {
    &&& g.len() > 0
    &&& g[0].parent is None
    &&& forall|i: int| 0 < i < g.len() ==> (#[trigger] g[i]).parent is Some && g[i].parent->0 < i
    &&& links_unique(g)
}

/// Number of parent hops from node `i` up to the root.
pub open spec fn depth_of(g: Seq<NodeModel>, i: int) -> nat
    decreases i,
{
    if 0 < i < g.len() && g[i].parent is Some && g[i].parent->0 < i {
        1 + depth_of(g, g[i].parent->0 as int)
    } else {
        0
    }
}

/// Indices of the nodes on the parent chain of node `i`, root first.
pub open spec fn chain_of(g: Seq<NodeModel>, i: int) -> Seq<int>
    decreases i,
{
    if 0 < i < g.len() && g[i].parent is Some && g[i].parent->0 < i {
        chain_of(g, g[i].parent->0 as int).push(i)
    } else {
        seq![i]
    }
}

/// Identifiers on the parent chain of node `i`, root first.
pub open spec fn path_of(g: Seq<NodeModel>, i: int) -> Seq<Seq<char>> {
    chain_of(g, i).map_values(|k: int| g[k].link)
}

/// The chain of node `i` starts at the root, ends at `i`, has one entry more
/// than the node's depth, and each entry is the parent of the next.
pub proof fn lemma_chain_is_parent_chain(g: Seq<NodeModel>, i: int)
    requires
        well_formed(g),
        0 <= i < g.len(),
    ensures
        chain_of(g, i).len() == depth_of(g, i) + 1,
        chain_of(g, i).first() == 0,
        chain_of(g, i).last() == i,
        forall|k: int| 0 <= k < chain_of(g, i).len() ==> 0 <= #[trigger] chain_of(g, i)[k] < g.len(),
        forall|k: int|
            0 < k < chain_of(g, i).len() ==> g[#[trigger] chain_of(g, i)[k]].parent == Some(
                chain_of(g, i)[k - 1] as usize,
            ),
    decreases i,
{
    if i > 0 {
        let p = g[i].parent->0 as int;
        lemma_chain_is_parent_chain(g, p);
        let up = chain_of(g, p);
        let all = chain_of(g, i);
        assert(all == up.push(i));
        assert forall|k: int| 0 < k < all.len() implies g[#[trigger] all[k]].parent == Some(
            all[k - 1] as usize,
        ) by {
            if k < up.len() {
                assert(all[k] == up[k]);
                assert(all[k - 1] == up[k - 1]);
            } else {
                assert(all[k - 1] == up.last());
            }
        }
    }
}

/// The arena of discovered nodes.
pub struct GraphStore {
    nodes: Vec<Node>,
}

impl View for GraphStore {
    type V = Seq<NodeModel>;

    closed spec fn view(&self) -> Seq<NodeModel> {
        self.nodes@.map_values(|n: Node| n@)
    }
}

impl GraphStore {
    /// The store keeps the shape that `well_formed` describes.
    pub open spec fn wf(&self) -> bool {
        well_formed(self@)
    }

    /// A store that holds only the root `source`.
    pub fn new(source: &str) -> (store: Self)
        ensures
            store.wf(),
            store@ == seq![NodeModel { parent: None, link: source@ }],
    {
        let mut nodes: Vec<Node> = Vec::new();
        nodes.push(Node { parent: None, link: source.to_owned() });
        let store = GraphStore { nodes };
        assert(store@ =~= seq![NodeModel { parent: None, link: source@ }]);
        store
    }

    /// Number of stored nodes.
    pub fn len(&self) -> (n: usize)
        ensures
            n == self@.len(),
    {
        self.nodes.len()
    }

    /// The node at `index`.
    pub fn get(&self, index: usize) -> (node: &Node)
        requires
            index < self@.len(),
        ensures
            node@ == self@[index as int],
    {
        &self.nodes[index]
    }

    /// Whether some stored node carries the identifier `link`.
    fn holds(&self, link: &String) -> (found: bool)
        ensures
            found == contains_link(self@, link@),
    {
        let mut i: usize = 0;
        while i < self.nodes.len()
            invariant
                i <= self.nodes.len(),
                forall|k: int| 0 <= k < i ==> (#[trigger] self@[k]).link != link@,
            decreases self.nodes.len() - i,
        {
            if self.nodes[i].link == *link {
                assert(self@[i as int].link == link@);
                return true;
            }
            i = i + 1;
        }
        false
    }

    /// Whether some stored node carries the identifier `link`.
    pub fn contains(&self, link: &str) -> (found: bool)
        ensures
            found == contains_link(self@, link@),
    {
        self.holds(&link.to_owned())
    }

    /// Stores `link` as a child of the node at `parent` and returns its index.
    /// Nothing is stored, and `None` returned, when `link` is already stored
    /// or `parent` is no stored index.
    pub fn append(&mut self, link: &str, parent: usize) -> (index: Option<usize>)
        requires
            old(self).wf(),
        ensures
            final(self).wf(),
            links_unique(final(self)@),
            final(self)@.len() <= usize::MAX,
            parent < old(self)@.len() && !contains_link(old(self)@, link@) ==> index == Some(
                old(self)@.len() as usize,
            ) && final(self)@ == old(self)@.push(NodeModel { parent: Some(parent), link: link@ }),
            parent >= old(self)@.len() || contains_link(old(self)@, link@) ==> index is None
                && final(self)@ == old(self)@,
    {
        let link = link.to_owned();
        if parent >= self.nodes.len() || self.holds(&link) {
            return None;
        }
        assert(self@.len() == self.nodes@.len());
        let index: usize = self.nodes.len();
        self.nodes.push(Node { parent: Some(parent), link });
        proof {
            vstd::std_specs::vec::axiom_spec_len(&self.nodes);
            let before = old(self)@;
            let node = NodeModel { parent: Some(parent), link: link@ };
            assert(self@ =~= before.push(node));
            assert forall|i: int, j: int|
                0 <= i < self@.len() && 0 <= j < self@.len() && i != j implies #[trigger] self@[i].link
                != #[trigger] self@[j].link by {
                if i < before.len() {
                    assert(self@[i] == before[i]);
                }
                if j < before.len() {
                    assert(self@[j] == before[j]);
                }
            }
            assert forall|i: int| 0 < i < self@.len() implies (#[trigger] self@[i]).parent is Some
                && self@[i].parent->0 < i by {
                if i < before.len() {
                    assert(self@[i] == before[i]);
                }
            }
            assert(self@[0] == before[0]);
        }
        Some(index)
    }

    /// Number of parent hops from the node at `index` up to the root.
    pub fn depth(&self, index: usize) -> (hops: usize)
        requires
            self.wf(),
            index < self@.len(),
        ensures
            hops == depth_of(self@, index as int),
    {
        let mut hops: usize = 0;
        let mut at: usize = index;
        while self.nodes[at].parent.is_some()
            invariant
                self.wf(),
                at < self@.len(),
                hops + at <= index,
                hops + depth_of(self@, at as int) == depth_of(self@, index as int),
            decreases at,
        {
            assert(self@[at as int] == self.nodes@[at as int]@);
            at = self.nodes[at].parent.unwrap();
            hops = hops + 1;
        }
        assert(self@[at as int] == self.nodes@[at as int]@);
        hops
    }

    /// Identifiers from the root down to the node at `index`.
    pub fn path_to_root(&self, index: usize) -> (path: Vec<String>)
        requires
            self.wf(),
            index < self@.len(),
        ensures
            texts(path@) == path_of(self@, index as int),
    {
        let mut up: Vec<String> = Vec::new();
        let mut at: usize = index;
        while self.nodes[at].parent.is_some()
            invariant
                self.wf(),
                at < self@.len(),
                path_of(self@, index as int) == path_of(self@, at as int) + texts(up@).reverse(),
            decreases at,
        {
            assert(self@[at as int] == self.nodes@[at as int]@);
            let ghost below = texts(up@).reverse();
            up.push(self.nodes[at].link.clone());
            proof {
                let p = self@[at as int].parent->0 as int;
                assert(chain_of(self@, at as int) == chain_of(self@, p).push(at as int));
                assert(path_of(self@, at as int) =~= path_of(self@, p).push(self@[at as int].link));
                assert(texts(up@).reverse() =~= seq![self@[at as int].link] + below);
                assert(path_of(self@, index as int) =~= path_of(self@, p) + texts(up@).reverse());
            }
            at = self.nodes[at].parent.unwrap();
        }
        assert(self@[at as int] == self.nodes@[at as int]@);
        let ghost below = texts(up@).reverse();
        up.push(self.nodes[at].link.clone());
        proof {
            assert(path_of(self@, at as int) =~= seq![self@[at as int].link]);
            assert(texts(up@).reverse() =~= seq![self@[at as int].link] + below);
            assert(path_of(self@, index as int) =~= texts(up@).reverse());
        }
        let ghost climbed = up@;
        let mut path: Vec<String> = Vec::new();
        while up.len() > 0
            invariant
                up@.len() + path@.len() == climbed.len(),
                up@ == climbed.take(up@.len() as int),
                forall|k: int| 0 <= k < path@.len() ==> path@[k] == climbed[climbed.len() - 1 - k],
            decreases up@.len(),
        {
            let link = up.pop().unwrap();
            path.push(link);
        }
        assert(texts(path@) =~= texts(climbed).reverse());
        path
    }
}

} // verus!
