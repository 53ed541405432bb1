//! The search engine: a best-first search from a source page to a target
//! page over the links that a fetch cache holds.
//!
//! The engine owns the graph store and the frontier. It never fetches: it
//! runs for as long as the cache holds the page it wants to expand, and
//! reports the node whose links it lacks. Whoever drives it fetches that
//! page, completes the fetch in the cache, and lets the engine go on.

use vstd::prelude::*;
use crate::cache::CrawlerCache;
use crate::frontier::{lemma_insert_keeps_order, lemma_rank, ordered, rank, Frontier, PQEntry};
use crate::graph::{
    chain_of, contains_link, depth_of, lemma_chain_is_parent_chain, links_unique, path_of,
    well_formed, GraphStore, NodeModel,
};
use crate::heuristic::{cost_of, link_cost, link_distance, segment_distance};
use crate::text::texts;

verus! {

/// How many of the nodes that follow the head of the queue are worth
/// fetching ahead of their expansion.
pub const PREFETCH_SIZE: usize = 10;

/// How a run of the engine ended.
#[derive(Clone, Copy, Debug, PartialEq, Eq, Structural)]
pub enum SearchStep {
    /// The node at this index is the target.
    Found(usize),
    /// Nothing is left to expand and the target was not discovered.
    Exhausted,
    /// The node at this index is the next to expand and its page is not in
    /// the cache.
    Miss(usize),
}

/// The mathematical model of a `SearchEngine`.
pub struct EngineModel {
    pub target: Seq<char>,
    pub graph: Seq<NodeModel>,
    pub queue: Seq<PQEntry>,
    pub goal: Option<usize>,
}

/// The pages of a site as a cache holds them: the links of each page.
pub type Pages = Map<Seq<char>, Seq<Seq<char>>>;

/// `path` follows the links of `pages`: every entry but the last is a page
/// that links to the next.
pub open spec fn walk(pages: Pages, path: Seq<Seq<char>>) -> bool {
    forall|k: int|
        0 <= k < path.len() - 1 ==> pages.dom().contains(#[trigger] path[k]) && pages[path[k]].contains(
            path[k + 1],
        )
}

/// Some walk over `pages` leads from `from` to `to`.
pub open spec fn reachable(pages: Pages, from: Seq<char>, to: Seq<char>) -> bool {
    exists|path: Seq<Seq<char>>|
        #[trigger] walk(pages, path) && path.len() > 0 && path[0] == from && path.last() == to
}

/// `pages` holds every page that a walk from `from` reaches.
pub open spec fn covers(pages: Pages, from: Seq<char>) -> bool {
    forall|to: Seq<char>| #[trigger] reachable(pages, from, to) ==> pages.dom().contains(to)
}

impl EngineModel {
    /// The identifier the search started from.
    pub open spec fn source(self) -> Seq<char> {
        self.graph[0].link
    }

    /// Node `i` awaits expansion.
    pub open spec fn queued(self, i: int) -> bool {
        exists|k: int| 0 <= k < self.queue.len() && (#[trigger] self.queue[k]).idx == i
    }

    /// The shape every engine has: a well-formed graph and an ordered queue
    /// that names stored nodes, each at most once; a goal that is a stored
    /// node with the target's identifier; and, while no goal is known, no
    /// node with the target's identifier outside the queue.
    pub open spec fn wf(self) -> bool {
        &&& well_formed(self.graph)
        &&& self.graph.len() <= usize::MAX
        &&& ordered(self.queue)
        &&& forall|k: int|
            0 <= k < self.queue.len() ==> (#[trigger] self.queue[k]).idx < self.graph.len()
        &&& forall|j: int, k: int|
            0 <= j < k < self.queue.len() ==> (#[trigger] self.queue[j]).idx != (
            #[trigger] self.queue[k]).idx
        &&& match self.goal {
            Some(i) => i < self.graph.len() && self.graph[i as int].link == self.target,
            None => forall|i: int|
                0 <= i < self.graph.len() && (#[trigger] self.graph[i]).link == self.target
                    ==> self.queued(i),
        }
    }

    /// The page of node `i` is in `pages` and every link on it is stored.
    pub open spec fn expanded(self, pages: Pages, i: int) -> bool {
        &&& pages.dom().contains(self.graph[i].link)
        &&& forall|j: int|
            0 <= j < pages[self.graph[i].link].len() ==> contains_link(
                self.graph,
                #[trigger] pages[self.graph[i].link][j],
            )
    }

    /// The page of the parent of node `i` is in `pages` and links to node `i`.
    pub open spec fn linked_from_parent(self, pages: Pages, i: int) -> bool {
        let parent = self.graph[self.graph[i].parent->0 as int].link;
        pages.dom().contains(parent) && pages[parent].contains(self.graph[i].link)
    }

    /// What the engine has done so far, it has done over `pages`: every node
    /// but the root was found on its parent's page, and, while no goal is
    /// known, every node that has left the queue was expanded in full.
    pub open spec fn agrees(self, pages: Pages) -> bool {
        &&& forall|i: int| 0 < i < self.graph.len() ==> #[trigger] self.linked_from_parent(pages, i)
        &&& self.goal is None ==> forall|i: int|
            #![trigger self.queued(i)]
            #![trigger self.expanded(pages, i)]
            0 <= i < self.graph.len() ==> self.queued(i) || self.expanded(pages, i)
    }

    /// Identifiers of the nodes that have left the queue.
    pub open spec fn closed_links(self) -> Set<Seq<char>> {
        Set::new(
            |x: Seq<char>|
                exists|i: int|
                    0 <= i < self.graph.len() && (#[trigger] self.graph[i]).link == x
                        && !self.queued(i),
        )
    }

    /// Number of pages in `pages` that no node which has left the queue
    /// stands for: a bound on the expansions still to come.
    pub open spec fn backlog(self, pages: Pages) -> nat {
        pages.dom().difference(self.closed_links()).len()
    }

    /// Identifiers of the nodes that follow the head of the queue, at most
    /// `count` of them, in the order in which they will leave it.
    pub open spec fn upcoming(self, count: nat) -> Seq<Seq<char>> {
        Seq::new(
            if count < self.queue.len() {
                count
            } else if self.queue.len() > 0 {
                (self.queue.len() - 1) as nat
            } else {
                0
            },
            |j: int| self.graph[self.queue[j + 1].idx as int].link,
        )
    }

    /// The engine after it has taken note of `link`, found on the page of
    /// the node `parent`, which lies `depth` hops below the root. A link
    /// that is stored already changes nothing. A new one becomes a node and
    /// is queued at its cost; if it is the target, it is the goal.
    pub open spec fn register(self, parent: usize, depth: usize, link: Seq<char>) -> EngineModel {
        if contains_link(self.graph, link) {
            self
        } else {
            let entry = PQEntry {
                distance: cost_of(depth, link, self.target),
                idx: self.graph.len() as usize,
            };
            EngineModel {
                target: self.target,
                graph: self.graph.push(NodeModel { parent: Some(parent), link }),
                queue: self.queue.insert(rank(self.queue, entry), entry),
                goal: if link == self.target {
                    Some(self.graph.len() as usize)
                } else {
                    self.goal
                },
            }
        }
    }

    /// The engine after it has taken note of `links` in order, stopping
    /// early once a goal is known.
    pub open spec fn register_all(
        self,
        parent: usize,
        depth: usize,
        links: Seq<Seq<char>>,
    ) -> EngineModel
        decreases links.len(),
    {
        if links.len() == 0 || self.goal is Some {
            self
        } else {
            self.register(parent, depth, links[0]).register_all(
                parent,
                depth,
                links.drop_first(),
            )
        }
    }

    /// The engine after the node at the head of the queue has left it and
    /// the `links` of its page have been registered.
    pub open spec fn expand(self, links: Seq<Seq<char>>) -> EngineModel {
        let current = self.queue[0].idx;
        EngineModel {
            target: self.target,
            graph: self.graph,
            queue: self.queue.drop_first(),
            goal: self.goal,
        }.register_all(current, depth_of(self.graph, current as int) as usize, links)
    }

    /// The engine after its head node has left the queue as the goal.
    pub open spec fn arrive(self) -> EngineModel {
        EngineModel {
            target: self.target,
            graph: self.graph,
            queue: self.queue.drop_first(),
            goal: Some(self.queue[0].idx),
        }
    }

    /// Where a run stops, if it stops at `self`: at a known goal; at an empty
    /// queue; at a head node that is the target, which leaves the queue and
    /// becomes the goal; or at a head node whose page `pages` lacks.
    /// `None` when the head node is to be expanded.
    pub open spec fn settle(self, pages: Pages) -> Option<(EngineModel, SearchStep)> {
        if self.goal is Some {
            Some((self, SearchStep::Found(self.goal->0)))
        } else if self.queue.len() == 0 {
            Some((self, SearchStep::Exhausted))
        } else {
            let current = self.queue[0].idx;
            let link = self.graph[current as int].link;
            if link == self.target {
                Some((self.arrive(), SearchStep::Found(current)))
            } else if !pages.dom().contains(link) {
                Some((self, SearchStep::Miss(current)))
            } else {
                None
            }
        }
    }

    /// The engine after `n` expansions, each of the head node of the moment
    /// with the links that `pages` holds for it.
    pub open spec fn after(self, pages: Pages, n: nat) -> EngineModel
        decreases n,
    {
        if n == 0 {
            self
        } else {
            let before = self.after(pages, (n - 1) as nat);
            before.expand(pages[before.graph[before.queue[0].idx as int].link])
        }
    }

    /// A run from `self` over `pages` makes `n` expansions and then stops in
    /// state `end` with result `step`.
    pub open spec fn runs_to(self, pages: Pages, n: nat, end: EngineModel, step: SearchStep) -> bool {
        &&& forall|k: nat| k < n ==> (#[trigger] self.after(pages, k)).settle(pages) is None
        &&& self.after(pages, n).settle(pages) == Some((end, step))
    }
}

/// How the entries of a queue that `e` has entered at place `r` relate to
/// those of the queue before.
proof fn lemma_insert_entries(q: Seq<PQEntry>, r: int, e: PQEntry)
    requires
        0 <= r <= q.len(),
    ensures
        q.insert(r, e).len() == q.len() + 1,
        forall|k: int| 0 <= k < r ==> #[trigger] q.insert(r, e)[k] == q[k],
        q.insert(r, e)[r] == e,
        forall|k: int| r < k <= q.len() ==> #[trigger] q.insert(r, e)[k] == q[k - 1],
{
}

/// Registering one link keeps the engine well formed. The graph is
/// unchanged or longer by the one new node, which is then queued; no other
/// node enters or leaves the queue; afterwards the link is stored.
pub proof fn lemma_register(e: EngineModel, parent: usize, depth: usize, link: Seq<char>)
    requires
        e.wf(),
        e.goal is None,
        parent < e.graph.len(),
        contains_link(e.graph, link) || e.graph.len() < usize::MAX,
    ensures
        e.register(parent, depth, link).wf(),
        e.register(parent, depth, link).target == e.target,
        e.graph.len() <= e.register(parent, depth, link).graph.len() <= e.graph.len() + 1,
        forall|i: int|
            0 <= i < e.graph.len() ==> #[trigger] e.register(parent, depth, link).graph[i]
                == e.graph[i],
        forall|i: int|
            e.graph.len() <= i < e.register(parent, depth, link).graph.len() ==> #[trigger] e.register(
                parent,
                depth,
                link,
            ).graph[i] == (NodeModel { parent: Some(parent), link }),
        forall|i: int|
            e.graph.len() <= i < e.register(parent, depth, link).graph.len() ==> #[trigger] e.register(
                parent,
                depth,
                link,
            ).queued(i),
        forall|i: int|
            0 <= i < e.graph.len() ==> #[trigger] e.register(parent, depth, link).queued(i)
                == e.queued(i),
        contains_link(e.register(parent, depth, link).graph, link),
        e.register(parent, depth, link).goal is Some ==> link == e.target,
{
    let r = e.register(parent, depth, link);
    if !contains_link(e.graph, link) {
        let n = e.graph.len() as int;
        let entry = PQEntry { distance: cost_of(depth, link, e.target), idx: n as usize };
        let at = rank(e.queue, entry);
        lemma_rank(e.queue, entry);
        lemma_insert_keeps_order(e.queue, entry);
        lemma_insert_entries(e.queue, at, entry);
        assert(r.graph[n].link == link);
        assert forall|i: int, j: int|
            0 <= i < r.graph.len() && 0 <= j < r.graph.len() && i != j implies #[trigger] r.graph[i].link
            != #[trigger] r.graph[j].link by {
            if i < n && j < n {
                assert(e.graph[i].link != e.graph[j].link);
            } else if i < n {
                assert(e.graph[i].link != link);
            } else {
                assert(e.graph[j].link != link);
            }
        }
        assert forall|k: int| 0 <= k < r.queue.len() implies (#[trigger] r.queue[k]).idx
            < r.graph.len() by {
            if k < at {
                assert(r.queue[k] == e.queue[k]);
            } else if k > at {
                assert(r.queue[k] == e.queue[k - 1]);
            }
        }
        assert forall|j: int, k: int| 0 <= j < k < r.queue.len() implies (#[trigger] r.queue[j]).idx
            != (#[trigger] r.queue[k]).idx by {
            let a = if j < at { j } else { j - 1 };
            let b = if k < at { k } else { k - 1 };
            if j != at && k != at {
                assert(r.queue[j] == e.queue[a] && r.queue[k] == e.queue[b]);
            } else if j == at {
                assert(r.queue[k] == e.queue[b]);
            } else {
                assert(r.queue[j] == e.queue[a]);
            }
        }
        assert(r.queue[at].idx == n);
        assert forall|i: int| 0 <= i < n implies #[trigger] r.queued(i) == e.queued(i) by {
            if e.queued(i) {
                let k = choose|k: int| 0 <= k < e.queue.len() && (#[trigger] e.queue[k]).idx == i;
                let k2 = if k < at { k } else { k + 1 };
                assert(r.queue[k2] == e.queue[k]);
            }
            if r.queued(i) {
                let k = choose|k: int| 0 <= k < r.queue.len() && (#[trigger] r.queue[k]).idx == i;
                let k2 = if k < at { k } else { k - 1 };
                assert(k != at);
                assert(r.queue[k] == e.queue[k2]);
            }
        }
        if link != e.target {
            assert forall|i: int|
                0 <= i < r.graph.len() && (#[trigger] r.graph[i]).link == r.target implies r.queued(
                i,
            ) by {
                assert(i < n);
                assert(e.graph[i].link == e.target);
                assert(e.queued(i));
                assert(r.queued(i) == e.queued(i));
            }
        }
    }
}

/// Registering links never shortens the graph.
pub proof fn lemma_register_all_grows(
    e: EngineModel,
    parent: usize,
    depth: usize,
    links: Seq<Seq<char>>,
)
    ensures
        e.graph.len() <= e.register_all(parent, depth, links).graph.len(),
    decreases links.len(),
{
    if links.len() > 0 && e.goal is None {
        lemma_register_all_grows(
            e.register(parent, depth, links[0]),
            parent,
            depth,
            links.drop_first(),
        );
    }
}

/// Registering the links of a page keeps the engine well formed and only
/// appends to the graph. Every node it appends is a child of `parent`, has
/// one of the links as its identifier, and is queued; no other node enters
/// or leaves the queue. Unless a goal turned up, every link is stored
/// afterwards.
pub proof fn lemma_register_all(e: EngineModel, parent: usize, depth: usize, links: Seq<Seq<char>>)
    requires
        e.wf(),
        parent < e.graph.len(),
        e.register_all(parent, depth, links).graph.len() <= usize::MAX,
    ensures
        e.register_all(parent, depth, links).wf(),
        e.register_all(parent, depth, links).target == e.target,
        e.graph.len() <= e.register_all(parent, depth, links).graph.len(),
        forall|i: int|
            0 <= i < e.graph.len() ==> #[trigger] e.register_all(parent, depth, links).graph[i]
                == e.graph[i],
        forall|i: int|
            e.graph.len() <= i < e.register_all(parent, depth, links).graph.len() ==> (
            #[trigger] e.register_all(parent, depth, links).graph[i]).parent == Some(parent)
                && links.contains(e.register_all(parent, depth, links).graph[i].link),
        forall|i: int|
            e.graph.len() <= i < e.register_all(parent, depth, links).graph.len()
                ==> #[trigger] e.register_all(parent, depth, links).queued(i),
        forall|i: int|
            0 <= i < e.graph.len() ==> #[trigger] e.register_all(parent, depth, links).queued(i)
                == e.queued(i),
        e.register_all(parent, depth, links).goal is None ==> forall|j: int|
            0 <= j < links.len() ==> contains_link(
                e.register_all(parent, depth, links).graph,
                #[trigger] links[j],
            ),
        e.goal is Some ==> e.register_all(parent, depth, links) == e,
    decreases links.len(),
{
    let r = e.register_all(parent, depth, links);
    if links.len() > 0 && e.goal is None {
        let first = e.register(parent, depth, links[0]);
        let rest = links.drop_first();
        lemma_register_all_grows(first, parent, depth, rest);
        lemma_register(e, parent, depth, links[0]);
        lemma_register_all(first, parent, depth, rest);
        assert forall|i: int| e.graph.len() <= i < r.graph.len() implies (#[trigger] r.graph[i]).parent
            == Some(parent) && links.contains(r.graph[i].link) by {
            if i < first.graph.len() {
                assert(r.graph[i] == first.graph[i]);
                assert(links[0] == r.graph[i].link);
            } else {
                let j = choose|j: int| 0 <= j < rest.len() && rest[j] == r.graph[i].link;
                assert(links[j + 1] == r.graph[i].link);
            }
        }
        assert forall|i: int| e.graph.len() <= i < r.graph.len() implies #[trigger] r.queued(i) by {
            if i < first.graph.len() {
                assert(r.queued(i) == first.queued(i));
            }
        }
        assert forall|i: int| 0 <= i < e.graph.len() implies #[trigger] r.queued(i) == e.queued(
            i,
        ) by {
            assert(r.queued(i) == first.queued(i));
        }
        if r.goal is None {
            assert forall|j: int| 0 <= j < links.len() implies contains_link(
                r.graph,
                #[trigger] links[j],
            ) by {
                if j == 0 {
                    let w = choose|w: int|
                        0 <= w < first.graph.len() && #[trigger] first.graph[w].link == links[0];
                    assert(r.graph[w].link == links[0]);
                } else {
                    assert(rest[j - 1] == links[j]);
                }
            }
        }
    }
}

/// Expanding the head node keeps the engine well formed and only appends
/// to the graph. The head node leaves the queue; every node appended is a
/// child of it, has one of the links as its identifier, and is queued; no
/// other node enters or leaves the queue. Unless a goal turned up, every
/// link is stored afterwards.
pub proof fn lemma_expand(e: EngineModel, links: Seq<Seq<char>>)
    requires
        e.wf(),
        e.goal is None,
        e.queue.len() > 0,
        e.graph[e.queue[0].idx as int].link != e.target,
        e.expand(links).graph.len() <= usize::MAX,
    ensures
        e.expand(links).wf(),
        e.expand(links).target == e.target,
        e.graph.len() <= e.expand(links).graph.len(),
        forall|i: int| 0 <= i < e.graph.len() ==> #[trigger] e.expand(links).graph[i] == e.graph[i],
        forall|i: int|
            e.graph.len() <= i < e.expand(links).graph.len() ==> (#[trigger] e.expand(
                links,
            ).graph[i]).parent == Some(e.queue[0].idx) && links.contains(
                e.expand(links).graph[i].link,
            ),
        forall|i: int|
            e.graph.len() <= i < e.expand(links).graph.len() ==> #[trigger] e.expand(links).queued(i),
        forall|i: int|
            0 <= i < e.graph.len() ==> #[trigger] e.expand(links).queued(i) == (e.queued(i) && i
                != e.queue[0].idx),
        e.expand(links).goal is None ==> forall|j: int|
            0 <= j < links.len() ==> contains_link(e.expand(links).graph, #[trigger] links[j]),
{
    let current = e.queue[0].idx;
    let popped = EngineModel {
        target: e.target,
        graph: e.graph,
        queue: e.queue.drop_first(),
        goal: e.goal,
    };
    assert forall|i: int| 0 <= i < e.graph.len() implies #[trigger] popped.queued(i) == (e.queued(i)
        && i != current) by {
        if popped.queued(i) {
            let k = choose|k: int| 0 <= k < popped.queue.len() && (#[trigger] popped.queue[k]).idx == i;
            assert(e.queue[k + 1] == popped.queue[k]);
            assert(e.queue[0].idx != e.queue[k + 1].idx);
        }
        if e.queued(i) && i != current {
            let k = choose|k: int| 0 <= k < e.queue.len() && (#[trigger] e.queue[k]).idx == i;
            assert(popped.queue[k - 1] == e.queue[k]);
        }
    }
    assert(popped.wf()) by {
        assert forall|j: int, k: int| 0 <= j < k < popped.queue.len() implies !(
        #[trigger] popped.queue[k]).precedes(#[trigger] popped.queue[j]) by {
            assert(popped.queue[j] == e.queue[j + 1] && popped.queue[k] == e.queue[k + 1]);
        }
        assert forall|k: int| 0 <= k < popped.queue.len() implies (#[trigger] popped.queue[k]).idx
            < popped.graph.len() by {
            assert(popped.queue[k] == e.queue[k + 1]);
        }
        assert forall|j: int, k: int| 0 <= j < k < popped.queue.len() implies (
        #[trigger] popped.queue[j]).idx != (#[trigger] popped.queue[k]).idx by {
            assert(popped.queue[j] == e.queue[j + 1] && popped.queue[k] == e.queue[k + 1]);
        }
        assert forall|i: int|
            0 <= i < popped.graph.len() && (#[trigger] popped.graph[i]).link
                == popped.target implies popped.queued(i) by {
            assert(e.queued(i));
            assert(popped.queued(i) == (e.queued(i) && i != current));
        }
    }
    let depth = depth_of(e.graph, current as int) as usize;
    lemma_register_all(popped, current, depth, links);
    let r = e.expand(links);
    assert forall|i: int| 0 <= i < e.graph.len() implies #[trigger] r.queued(i) == (e.queued(i) && i
        != current) by {
        assert(r.queued(i) == popped.queued(i));
        assert(popped.queued(i) == (e.queued(i) && i != current));
    }
}

/// Expanding the head node over `pages` keeps the engine in agreement
/// with `pages`.
pub proof fn lemma_expand_keeps_agreement(e: EngineModel, pages: Pages)
    requires
        e.wf(),
        e.agrees(pages),
        e.settle(pages) is None,
        e.after(pages, 1).graph.len() <= usize::MAX,
    ensures
        e.after(pages, 1).wf(),
        e.after(pages, 1).agrees(pages),
{
    let current = e.queue[0].idx as int;
    let links = pages[e.graph[current].link];
    let r = e.expand(links);
    assert(e.after(pages, 0) == e);
    assert(e.after(pages, 1) == r);
    lemma_expand(e, links);
    assert forall|i: int| 0 < i < r.graph.len() implies #[trigger] r.linked_from_parent(pages, i) by {
        if i < e.graph.len() {
            assert(e.linked_from_parent(pages, i));
            assert(r.graph[i] == e.graph[i]);
            assert(r.graph[e.graph[i].parent->0 as int] == e.graph[e.graph[i].parent->0 as int]);
        } else {
            assert(r.graph[i].parent == Some(current as usize));
            assert(r.graph[current] == e.graph[current]);
        }
    }
    if r.goal is None {
        assert forall|i: int|
            #![trigger r.queued(i)]
            #![trigger r.expanded(pages, i)]
            0 <= i < r.graph.len() implies r.queued(i) || r.expanded(pages, i) by {
            if i >= e.graph.len() {
                assert(r.queued(i));
            } else if i == current {
                assert(r.graph[i] == e.graph[i]);
                assert(r.expanded(pages, i));
            } else {
                assert(r.queued(i) == (e.queued(i) && i != current));
                assert(r.graph[i] == e.graph[i]);
                if !e.queued(i) {
                    assert(e.expanded(pages, i));
                    let on_page = pages[e.graph[i].link];
                    assert forall|j: int| 0 <= j < on_page.len() implies contains_link(
                        r.graph,
                        #[trigger] on_page[j],
                    ) by {
                        let w = choose|w: int|
                            0 <= w < e.graph.len() && #[trigger] e.graph[w].link == on_page[j];
                        assert(r.graph[w].link == on_page[j]);
                    }
                    assert(r.expanded(pages, i));
                }
            }
        }
    }
}

/// Expanding the head node over `pages` lowers the backlog.
pub proof fn lemma_expand_lowers_backlog(e: EngineModel, pages: Pages)
    requires
        e.wf(),
        e.settle(pages) is None,
        pages.dom().finite(),
        e.after(pages, 1).graph.len() <= usize::MAX,
    ensures
        e.after(pages, 1).backlog(pages) < e.backlog(pages),
{
    let current = e.queue[0].idx as int;
    let link = e.graph[current].link;
    let r = e.expand(pages[link]);
    assert(e.after(pages, 0) == e);
    assert(e.after(pages, 1) == r);
    lemma_expand(e, pages[link]);
    let open_before = pages.dom().difference(e.closed_links());
    let open_after = pages.dom().difference(r.closed_links());
    assert(r.closed_links().contains(link)) by {
        assert(r.graph[current].link == link && !r.queued(current));
    }
    assert(!e.closed_links().contains(link)) by {
        if e.closed_links().contains(link) {
            let i = choose|i: int|
                0 <= i < e.graph.len() && (#[trigger] e.graph[i]).link == link && !e.queued(i);
            assert(e.queue[0].idx == current);
            assert(e.queued(current));
            assert(i != current);
            assert(e.graph[i].link != e.graph[current].link);
        }
    }
    assert forall|x: Seq<char>| open_after.contains(x) implies open_before.remove(link).contains(
        x,
    ) by {
        if e.closed_links().contains(x) {
            let i = choose|i: int|
                0 <= i < e.graph.len() && (#[trigger] e.graph[i]).link == x && !e.queued(i);
            assert(r.graph[i].link == x);
            assert(r.queued(i) == (e.queued(i) && i != current));
            assert(r.closed_links().contains(x));
        }
    }
    assert(open_after.subset_of(open_before.remove(link)));
    vstd::set_lib::lemma_len_subset(open_after, open_before.remove(link));
}

/// The parent chain of a stored node is a walk over `pages` from the source
/// to that node.
pub proof fn lemma_path_is_walk(e: EngineModel, pages: Pages, i: int)
    requires
        e.wf(),
        e.agrees(pages),
        0 <= i < e.graph.len(),
    ensures
        walk(pages, path_of(e.graph, i)),
        path_of(e.graph, i).len() == depth_of(e.graph, i) + 1,
        path_of(e.graph, i)[0] == e.source(),
        path_of(e.graph, i).last() == e.graph[i].link,
        reachable(pages, e.source(), e.graph[i].link),
{
    lemma_chain_is_parent_chain(e.graph, i);
    let chain = chain_of(e.graph, i);
    let path = path_of(e.graph, i);
    assert forall|k: int| 0 <= k < path.len() - 1 implies pages.dom().contains(#[trigger] path[k])
        && pages[path[k]].contains(path[k + 1]) by {
        let child = chain[k + 1];
        assert(e.graph[child].parent == Some(chain[k] as usize));
        assert(child != 0);
        assert(e.linked_from_parent(pages, child));
        assert(path[k] == e.graph[chain[k]].link);
        assert(path[k + 1] == e.graph[child].link);
    }
    assert(path[0] == e.graph[chain[0]].link);
    assert(path.last() == e.graph[chain.last()].link);
    assert(walk(pages, path));
}

/// Once the queue is empty and no goal is known, every identifier that a
/// walk from the source reaches is stored.
pub proof fn lemma_exhausted_store_is_closed(e: EngineModel, pages: Pages, path: Seq<Seq<char>>)
    requires
        e.wf(),
        e.agrees(pages),
        e.goal is None,
        e.queue.len() == 0,
        walk(pages, path),
        path.len() > 0,
        path[0] == e.source(),
    ensures
        contains_link(e.graph, path.last()),
    decreases path.len(),
{
    if path.len() == 1 {
        assert(e.graph[0].link == path.last());
    } else {
        let front = path.drop_last();
        assert forall|k: int| 0 <= k < front.len() - 1 implies pages.dom().contains(
            #[trigger] front[k],
        ) && pages[front[k]].contains(front[k + 1]) by {
            assert(front[k] == path[k] && front[k + 1] == path[k + 1]);
        }
        lemma_exhausted_store_is_closed(e, pages, front);
        let i = choose|i: int| 0 <= i < e.graph.len() && #[trigger] e.graph[i].link == front.last();
        assert(!e.queued(i));
        assert(e.expanded(pages, i));
        let from = path[path.len() - 2];
        assert(from == front.last());
        assert(pages[from].contains(path[path.len() - 2 + 1]));
        let j = choose|j: int| 0 <= j < pages[from].len() && pages[from][j] == path.last();
        assert(contains_link(e.graph, pages[from][j]));
    }
}

/// Once the queue is empty and no goal is known, no walk over `pages` leads
/// from the source to the target.
pub proof fn lemma_exhausted_means_unreachable(e: EngineModel, pages: Pages)
    requires
        e.wf(),
        e.agrees(pages),
        e.goal is None,
        e.queue.len() == 0,
    ensures
        !reachable(pages, e.source(), e.target),
{
    if reachable(pages, e.source(), e.target) {
        let path = choose|path: Seq<Seq<char>>|
            #[trigger] walk(pages, path) && path.len() > 0 && path[0] == e.source() && path.last()
                == e.target;
        lemma_exhausted_store_is_closed(e, pages, path);
        let i = choose|i: int| 0 <= i < e.graph.len() && #[trigger] e.graph[i].link == e.target;
        assert(e.queued(i));
    }
}

/// What a result tells of the state in which the run stopped. A found node
/// is the goal and carries the target's identifier. An exhausted engine has
/// an empty queue and stores no node with the target's identifier. A missed
/// node is the head of the queue, is not the target, and `pages` lacks its
/// page.
pub proof fn lemma_stop(e: EngineModel, pages: Pages, end: EngineModel, step: SearchStep)
    requires
        e.wf(),
        e.settle(pages) == Some((end, step)),
    ensures
        end.graph == e.graph,
        end.target == e.target,
        match step {
            SearchStep::Found(i) => end.goal == Some(i) && i < end.graph.len() && end.graph[i as int].link
                == end.target,
            SearchStep::Exhausted => end == e && e.goal is None && e.queue.len() == 0
                && !contains_link(e.graph, e.target),
            SearchStep::Miss(i) => end == e && e.goal is None && e.queue.len() > 0 && i
                == e.queue[0].idx && i < e.graph.len() && e.graph[i as int].link != e.target
                && !pages.dom().contains(e.graph[i as int].link),
        },
{
    if e.goal is None && e.queue.len() == 0 && contains_link(e.graph, e.target) {
        let i = choose|i: int| 0 <= i < e.graph.len() && #[trigger] e.graph[i].link == e.target;
        assert(e.queued(i));
    }
}

/// An engine that agrees with `pages` agrees with any pages that hold the
/// same and more.
pub proof fn lemma_agreement_survives_growth(e: EngineModel, pages: Pages, more: Pages)
    requires
        e.agrees(pages),
        pages.submap_of(more),
    ensures
        e.agrees(more),
{
    assert forall|i: int| 0 < i < e.graph.len() implies #[trigger] e.linked_from_parent(more, i) by {
        assert(e.linked_from_parent(pages, i));
    }
    if e.goal is None {
        assert forall|i: int|
            #![trigger e.queued(i)]
            #![trigger e.expanded(more, i)]
            0 <= i < e.graph.len() implies e.queued(i) || e.expanded(more, i) by {
            if !e.queued(i) {
                assert(e.expanded(pages, i));
            }
        }
    }
}

/// When the head node is the target, taking it from the queue as the goal
/// keeps the engine well formed and in agreement with `pages`.
pub proof fn lemma_arrival(e: EngineModel, pages: Pages)
    requires
        e.wf(),
        e.goal is None,
        e.queue.len() > 0,
        e.graph[e.queue[0].idx as int].link == e.target,
    ensures
        e.settle(pages) == Some((e.arrive(), SearchStep::Found(e.queue[0].idx))),
        e.arrive().wf(),
        e.agrees(pages) ==> e.arrive().agrees(pages),
{
    let end = e.arrive();
    assert forall|j: int, k: int| 0 <= j < k < end.queue.len() implies !(
    #[trigger] end.queue[k]).precedes(#[trigger] end.queue[j]) by {
        assert(end.queue[j] == e.queue[j + 1] && end.queue[k] == e.queue[k + 1]);
    }
    assert forall|k: int| 0 <= k < end.queue.len() implies (#[trigger] end.queue[k]).idx
        < end.graph.len() by {
        assert(end.queue[k] == e.queue[k + 1]);
    }
    assert forall|j: int, k: int| 0 <= j < k < end.queue.len() implies (#[trigger] end.queue[j]).idx
        != (#[trigger] end.queue[k]).idx by {
        assert(end.queue[j] == e.queue[j + 1] && end.queue[k] == e.queue[k + 1]);
    }
    if e.agrees(pages) {
        assert forall|i: int| 0 < i < end.graph.len() implies #[trigger] end.linked_from_parent(
            pages,
            i,
        ) by {
            assert(e.linked_from_parent(pages, i));
        }
    }
}

/// The search state: the graph discovered so far, the nodes that await
/// expansion, and the goal once it is known.
pub struct SearchEngine {
    target: String,
    all_links: GraphStore,
    queue: Frontier,
    goal: Option<usize>,
}

impl View for SearchEngine {
    type V = EngineModel;

    closed spec fn view(&self) -> EngineModel {
        EngineModel {
            target: self.target@,
            graph: self.all_links@,
            queue: self.queue@,
            goal: self.goal,
        }
    }
}

impl SearchEngine {
    /// The engine has the shape that `EngineModel::wf` describes.
    pub open spec fn wf(&self) -> bool {
        self@.wf()
    }

    /// An engine that is about to search for `target` from `source`: the
    /// graph holds the root alone, and the root is queued at the distance
    /// between its final segment and the target's.
    pub fn new(source: &str, target: &str) -> (engine: Self)
        ensures
            engine.wf(),
            engine@.target == target@,
            engine@.graph == seq![NodeModel { parent: None, link: source@ }],
            engine@.queue == seq![
                PQEntry { distance: segment_distance(source@, target@) as u128, idx: 0 },
            ],
            engine@.goal is None,
            forall|pages: Pages| #[trigger] engine@.agrees(pages),
    {
        let all_links = GraphStore::new(source);
        let mut queue = Frontier::new();
        let root = PQEntry { distance: link_distance(source, target) as u128, idx: 0 };
        queue.insert(root);
        let engine = SearchEngine { target: target.to_owned(), all_links, queue, goal: None };
        proof {
            assert(engine@.queue =~= seq![root]);
            assert(engine@.queue[0].idx == 0);
            assert forall|i: int|
                0 <= i < engine@.graph.len() && (#[trigger] engine@.graph[i]).link
                    == engine@.target implies engine@.queued(i) by {
                assert(engine@.queue[0].idx == i);
            }
            assert forall|pages: Pages| #[trigger] engine@.agrees(pages) by {
                assert(engine@.queued(0));
            }
        }
        engine
    }

    /// The graph discovered so far.
    pub fn graph(&self) -> (graph: &GraphStore)
        ensures
            graph@ == self@.graph,
    {
        &self.all_links
    }

    /// The nodes that await expansion.
    pub fn frontier(&self) -> (queue: &Frontier)
        ensures
            queue@ == self@.queue,
    {
        &self.queue
    }

    /// The index of the target's node, once the search has found it.
    pub fn goal(&self) -> (goal: Option<usize>)
        ensures
            goal == self@.goal,
    {
        self.goal
    }

    /// Identifiers of the nodes that are likely to be expanded after the
    /// head node: those of the `count` entries that follow it in the queue,
    /// or of all that follow it if they are fewer.
    pub fn prefetch_candidates(&self, count: usize) -> (links: Vec<String>)
        requires
            self.wf(),
        ensures
            texts(links@) == self@.upcoming(count as nat),
    {
        let total: usize = self.queue.len();
        let want: usize = if count < total {
            count + 1
        } else {
            total
        };
        let best = self.queue.peek_best_n(want);
        let mut links: Vec<String> = Vec::new();
        let mut j: usize = 1;
        while j < best.len()
            invariant
                self.wf(),
                1 <= j,
                best@ == self@.queue.take(want as int),
                want <= self@.queue.len(),
                want == 0 || j <= want,
                links@.len() == if want == 0 { 0 } else { j - 1 },
                forall|k: int|
                    0 <= k < links@.len() ==> links@[k]@ == self@.graph[self@.queue[k + 1].idx as int].link,
            decreases best.len() - j,
        {
            assert(best@[j as int] == self@.queue[j as int]);
            links.push(self.all_links.get(best[j].idx).link.clone());
            j = j + 1;
        }
        assert(texts(links@) =~= self@.upcoming(count as nat));
        links
    }

    /// Takes the head node from the queue and registers the `links` of its
    /// page.
    fn expand(&mut self, links: &Vec<String>)
        requires
            old(self).wf(),
            old(self)@.goal is None,
            old(self)@.queue.len() > 0,
            old(self)@.graph[old(self)@.queue[0].idx as int].link != old(self)@.target,
        ensures
            final(self).wf(),
            final(self)@ == old(self)@.expand(texts(links@)),
    {
        let ghost start = self@;
        let ghost found = texts(links@);
        let current: usize = match self.queue.pop_best() {
            Some(best) => best.idx,
            None => 0,
        };
        let depth: usize = self.all_links.depth(current);
        let ghost popped = self@;
        assert(found.skip(0) =~= found);
        let mut i: usize = 0;
        while i < links.len() && self.goal.is_none()
            invariant
                i <= links.len(),
                found == texts(links@),
                self.all_links.wf(),
                self.queue.wf(),
                current < self@.graph.len() <= usize::MAX,
                self@.register_all(current, depth, found.skip(i as int)) == popped.register_all(
                    current,
                    depth,
                    found,
                ),
            decreases links.len() - i,
        {
            let ghost before = self@;
            let ghost rest = found.skip(i as int);
            assert(rest[0] == links@[i as int]@);
            assert(rest.drop_first() =~= found.skip(i + 1));
            let link = &links[i];
            match self.all_links.append(link.as_str(), current) {
                Some(index) => {
                    let cost: u128 = link_cost(depth, link.as_str(), self.target.as_str());
                    self.queue.insert(PQEntry { distance: cost, idx: index });
                    if *link == self.target {
                        self.goal = Some(index);
                    }
                },
                None => {},
            }
            assert(self@ == before.register(current, depth, rest[0]));
            i = i + 1;
        }
        proof {
            assert(self@.register_all(current, depth, found.skip(i as int)) == self@);
            assert(self@ == start.expand(found));
            lemma_expand(start, found);
        }
    }

    /// Runs the search for as long as `crawler_cache` holds the page of the
    /// node to expand. Each round takes the head node of the queue: if it is
    /// the target, the search has found it; if its page is not cached, the
    /// run stops there and leaves the node queued; otherwise the node leaves
    /// the queue and the links of its page are registered, in order, and the
    /// search has found the target as soon as one of them is it.
    ///
    /// A run makes at most as many expansions as the cache holds pages.
    ///
    /// When the engine has so far worked over these pages, the result tells
    /// of the pages themselves: the target is found only if a walk leads to
    /// it from the source, and the search is exhausted only if none does.
    /// Over pages that cover all that the source reaches, no run stops short.
    pub fn search(&mut self, crawler_cache: &CrawlerCache) -> (step: SearchStep)
        requires
            old(self).wf(),
        ensures
            final(self).wf(),
            links_unique(final(self)@.graph),
            exists|n: nat|
                n <= old(self)@.backlog(crawler_cache@.pages) && old(self)@.runs_to(
                    crawler_cache@.pages,
                    n,
                    final(self)@,
                    step,
                ),
            final(self)@.target == old(self)@.target,
            final(self)@.source() == old(self)@.source(),
            match step {
                SearchStep::Found(i) => final(self)@.goal == Some(i) && i < final(self)@.graph.len()
                    && final(self)@.graph[i as int].link == final(self)@.target,
                SearchStep::Exhausted => final(self)@.goal is None && final(self)@.queue.len() == 0
                    && !contains_link(final(self)@.graph, final(self)@.target),
                SearchStep::Miss(i) => final(self)@.goal is None && final(self)@.queue.len() > 0 && i
                    == final(self)@.queue[0].idx && i < final(self)@.graph.len()
                    && !crawler_cache@.pages.dom().contains(final(self)@.graph[i as int].link),
            },
            old(self)@.agrees(crawler_cache@.pages) ==> final(self)@.agrees(crawler_cache@.pages),
            old(self)@.agrees(crawler_cache@.pages) ==> match step {
                SearchStep::Found(i) => reachable(
                    crawler_cache@.pages,
                    old(self)@.source(),
                    old(self)@.target,
                ) && walk(crawler_cache@.pages, path_of(final(self)@.graph, i as int)),
                SearchStep::Exhausted => !reachable(
                    crawler_cache@.pages,
                    old(self)@.source(),
                    old(self)@.target,
                ),
                SearchStep::Miss(i) => reachable(
                    crawler_cache@.pages,
                    old(self)@.source(),
                    final(self)@.graph[i as int].link,
                ),
            },
            old(self)@.agrees(crawler_cache@.pages) && covers(
                crawler_cache@.pages,
                old(self)@.source(),
            ) ==> !(step is Miss) && (step is Found <==> reachable(
                crawler_cache@.pages,
                old(self)@.source(),
                old(self)@.target,
            )),
    {
        let ghost start = self@;
        let ghost pages = crawler_cache@.pages;
        let ghost mut rounds: nat = 0;
        proof {
            crawler_cache.lemma_finite();
        }
        loop
            invariant
                self.wf(),
                start == old(self)@,
                pages == crawler_cache@.pages,
                pages.dom().finite(),
                self@ == start.after(pages, rounds),
                rounds + self@.backlog(pages) <= start.backlog(pages),
                forall|k: nat| k < rounds ==> (#[trigger] start.after(pages, k)).settle(pages) is None,
                self@.target == start.target,
                self@.source() == start.source(),
                start.agrees(pages) ==> self@.agrees(pages),
            decreases self@.backlog(pages),
        {
            if let Some(index) = self.goal {
                proof {
                    lemma_stop(self@, pages, self@, SearchStep::Found(index));
                    if start.agrees(pages) {
                        lemma_path_is_walk(self@, pages, index as int);
                    }
                    assert(start.runs_to(pages, rounds, self@, SearchStep::Found(index)));
                }
                return SearchStep::Found(index);
            }
            let current: usize = match self.queue.peek_best() {
                Some(best) => best.idx,
                None => {
                    proof {
                        lemma_stop(self@, pages, self@, SearchStep::Exhausted);
                        if start.agrees(pages) {
                            lemma_exhausted_means_unreachable(self@, pages);
                        }
                        assert(start.runs_to(pages, rounds, self@, SearchStep::Exhausted));
                    }
                    return SearchStep::Exhausted;
                },
            };
            let ghost before = self@;
            if self.all_links.get(current).link == self.target {
                proof {
                    lemma_arrival(before, pages);
                }
                let _ = self.queue.pop_best();
                self.goal = Some(current);
                proof {
                    assert(self@ == before.arrive());
                    if start.agrees(pages) {
                        lemma_path_is_walk(self@, pages, current as int);
                    }
                    assert(start.runs_to(pages, rounds, self@, SearchStep::Found(current)));
                }
                return SearchStep::Found(current);
            }
            match crawler_cache.get(self.all_links.get(current).link.as_str()) {
                None => {
                    proof {
                        lemma_stop(self@, pages, self@, SearchStep::Miss(current));
                        if start.agrees(pages) {
                            lemma_path_is_walk(self@, pages, current as int);
                        }
                        assert(start.runs_to(pages, rounds, self@, SearchStep::Miss(current)));
                    }
                    return SearchStep::Miss(current);
                },
                Some(links) => {
                    self.expand(links);
                    proof {
                        assert(before.settle(pages) is None);
                        assert(self@ == start.after(pages, rounds + 1));
                        assert(before.after(pages, 0) == before);
                        assert(self@ == before.after(pages, 1));
                        if start.agrees(pages) {
                            lemma_expand_keeps_agreement(before, pages);
                        }
                        lemma_expand_lowers_backlog(before, pages);
                        lemma_expand(before, pages[before.graph[current as int].link]);
                        rounds = rounds + 1;
                    }
                },
            }
        }
    }
}

} // verus!
