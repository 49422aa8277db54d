use vstd::prelude::*;

use crate::entries::{
    lemma_take_has_key,
    entries_map, has_key_at, keys_unique, lemma_entries_dom, lemma_entries_finite,
    lemma_entries_index, lemma_push_unique, lemma_remove_entry, lemma_update_value,
};
use crate::history::GraphOp;
use crate::node::{Color, Node};
use crate::weight::GraphWeight;

verus! {

/// The abstract state of a graph.
pub struct GraphView<W> {
    /// Nodes by identifier.
    pub nodes: Map<u128, Node>,
    /// Edge weights by ordered (source, target) pair.
    pub edges: Map<(u128, u128), W>,
    /// The largest identifier the graph has handed out or been built with;
    /// every identifier handed out later lies above it.
    pub last_id: u128,
}

impl<W> GraphView<W> {
    /// The edge `e` starts or ends at `id`.
    pub open spec fn touches(e: (u128, u128), id: u128) -> bool {
        e.0 == id || e.1 == id
    }

    /// The state after removing node `id` and every edge incident to it.
    pub open spec fn removing(self, id: u128) -> GraphView<W> {
        GraphView {
            nodes: self.nodes.remove(id),
            edges: self.edges.restrict(self.edges.dom().filter(|e: (u128, u128)| !Self::touches(e, id))),
            last_id: self.last_id,
        }
    }

    /// The state after linking `a` to `b` with weight `w`.
    pub open spec fn linking(self, a: u128, b: u128, w: W) -> GraphView<W> {
        GraphView {
            nodes: self.nodes,
            edges: self.edges.insert((a, b), w),
            last_id: self.last_id,
        }
    }
}

/// A directed graph with weighted edges. Nodes carry a fresh identifier each;
/// at most one edge exists per ordered pair of identifiers.
pub struct OrientedGraph<W: GraphWeight> {
    /// Node entries, one per identifier.
    pub nodes: Vec<(u128, Node)>,
    /// Edge entries, one per ordered pair.
    pub edges: Vec<((u128, u128), W)>,
    /// See `GraphView::last_id`.
    pub last_id: u128,
}

impl<W: GraphWeight> View for OrientedGraph<W> {
    type V = GraphView<W>;

    open spec fn view(&self) -> GraphView<W> {
        GraphView { nodes: entries_map(self.nodes@), edges: entries_map(self.edges@), last_id: self.last_id }
    }
}

/// Drawn identifiers above this are not used, so that a long run of inserts
/// always finds a fresh identifier.
pub const ID_CAP: u128 = 0x8000_0000_0000_0000_0000_0000_0000_0000;

/// The largest identifier an insert can hand out after `last_id`.
pub open spec fn fresh_bound(last_id: u128) -> int {
    if last_id < ID_CAP {
        ID_CAP as int
    } else {
        last_id + 1
    }
}

/// The largest key of the listed entries, or 0.
pub open spec fn max_id<V>(s: Seq<(u128, V)>) -> u128
    decreases s.len(),
{
    if s.len() == 0 {
        0
    } else if s.last().0 > max_id(s.drop_last()) {
        s.last().0
    } else {
        max_id(s.drop_last())
    }
}

/// Relies on ulid::Ulid::new for a time-ordered identifier with random low
/// bits. Nothing is assumed of the value it returns.
#[verifier::external_body]
fn draw_ulid() -> (r: u128) {
    ulid::Ulid::new().0
}

impl<W: GraphWeight> OrientedGraph<W> {
    /// Entry lists without repeated keys, and no node identifier above
    /// `last_id`.
    pub open spec fn wf(&self) -> bool {
        &&& keys_unique(self.nodes@)
        &&& keys_unique(self.edges@)
        &&& forall|i: int| 0 <= i < self.nodes.len() ==> #[trigger] self.nodes@[i].0 <= self.last_id
    }

    /// A fresh identifier can still be found above `last_id`.
    pub open spec fn can_insert(&self) -> bool {
        self.last_id < u128::MAX
    }

    pub proof fn lemma_view_finite(&self)
        requires
            self.wf(),
        ensures
            self@.nodes.dom().finite(),
            self@.edges.dom().finite(),
            self@.nodes.dom().len() == self.nodes.len(),
            self@.edges.dom().len() == self.edges.len(),
    {
        lemma_entries_finite(self.nodes@);
        lemma_entries_finite(self.edges@);
    }

    /// Every node identifier lies at or below `last_id`.
    pub proof fn lemma_ids_bounded(&self)
        requires
            self.wf(),
        ensures
            forall|id: u128| #[trigger] self@.nodes.contains_key(id) ==> id <= self@.last_id,
    {
        assert forall|id: u128| #[trigger] self@.nodes.contains_key(id) implies id
            <= self@.last_id by {
            lemma_entries_dom(self.nodes@, id);
        }
    }

    /// A graph with no nodes and no edges.
    pub fn empty() -> (g: Self)
        ensures
            g.wf(),
            g@.nodes == Map::<u128, Node>::empty(),
            g@.edges == Map::<(u128, u128), W>::empty(),
            g@.last_id == 0,
    {
        OrientedGraph { nodes: Vec::new(), edges: Vec::new(), last_id: 0 }
    }

    /// The graph holding the given entries; of two entries with one key the
    /// later wins. No check is made that edges join existing nodes.
    pub fn new(nodes: Vec<(u128, Node)>, edges: Vec<((u128, u128), W)>) -> (g: Self)
        ensures
            g.wf(),
            g@.nodes == entries_map(nodes@),
            g@.edges == entries_map(edges@),
            g@.last_id == max_id(nodes@),
    {
        let mut g = OrientedGraph { nodes: Vec::new(), edges: Vec::new(), last_id: 0 };
        let mut i: usize = 0;
        while i < nodes.len()
            invariant
                g.wf(),
                i <= nodes.len(),
                g@.nodes == entries_map(nodes@.take(i as int)),
                g@.edges == Map::<(u128, u128), W>::empty(),
                g@.last_id == max_id(nodes@.take(i as int)),
            decreases nodes.len() - i,
        {
            assert(nodes@.take(i as int + 1).drop_last() =~= nodes@.take(i as int));
            g.put(nodes[i].0, nodes[i].1.clone());
            i = i + 1;
        }
        assert(nodes@.take(nodes.len() as int) =~= nodes@);
        let mut j: usize = 0;
        while j < edges.len()
            invariant
                g.wf(),
                j <= edges.len(),
                g@.nodes == entries_map(nodes@),
                g@.last_id == max_id(nodes@),
                g@.edges == entries_map(edges@.take(j as int)),
            decreases edges.len() - j,
        {
            assert(edges@.take(j as int + 1).drop_last() =~= edges@.take(j as int));
            g.link(edges[j].0.0, edges[j].0.1, edges[j].1);
            j = j + 1;
        }
        assert(edges@.take(edges.len() as int) =~= edges@);
        g
    }

    /// Index of the entry of node `id`.
    pub fn find_node(&self, id: u128) -> (r: Option<usize>)
        requires
            self.wf(),
        ensures
            match r {
                Some(i) => i < self.nodes.len() && self.nodes@[i as int].0 == id,
                None => !self@.nodes.contains_key(id),
            },
    {
        let mut i: usize = 0;
        while i < self.nodes.len()
            invariant
                i <= self.nodes.len(),
                forall|j: int| 0 <= j < i ==> #[trigger] self.nodes@[j].0 != id,
            decreases self.nodes.len() - i,
        {
            if self.nodes[i].0 == id {
                return Some(i);
            }
            i = i + 1;
        }
        proof {
            lemma_entries_dom(self.nodes@, id);
        }
        None
    }

    /// Index of the entry of edge `(a, b)`.
    pub fn find_edge(&self, a: u128, b: u128) -> (r: Option<usize>)
        requires
            self.wf(),
        ensures
            match r {
                Some(i) => i < self.edges.len() && self.edges@[i as int].0 == (a, b),
                None => !self@.edges.contains_key((a, b)),
            },
    {
        let mut i: usize = 0;
        while i < self.edges.len()
            invariant
                i <= self.edges.len(),
                forall|j: int| 0 <= j < i ==> #[trigger] self.edges@[j].0 != (a, b),
            decreases self.edges.len() - i,
        {
            if self.edges[i].0.0 == a && self.edges[i].0.1 == b {
                return Some(i);
            }
            i = i + 1;
        }
        proof {
            lemma_entries_dom(self.edges@, (a, b));
        }
        None
    }

    /// Stores `node` under `id`, replacing any node held there; `last_id`
    /// rises to `id` if it was below.
    pub fn put(&mut self, id: u128, node: Node)
        requires
            old(self).wf(),
        ensures
            final(self).wf(),
            final(self)@.nodes == old(self)@.nodes.insert(id, node),
            final(self)@.edges == old(self)@.edges,
            final(self)@.last_id == if id <= old(self)@.last_id { old(self)@.last_id } else { id },
    {
        if id > self.last_id {
            self.last_id = id;
        }
        match self.find_node(id) {
            Some(i) => {
                proof {
                    lemma_update_value(self.nodes@, i as int, node);
                }
                self.nodes.set(i, (id, node));
            },
            None => {
                proof {
                    lemma_push_unique(self.nodes@, (id, node));
                }
                self.nodes.push((id, node));
            },
        }
    }

    /// Removes every node and every edge. Identifiers handed out before stay
    /// spent.
    pub fn clear(&mut self)
        requires
            old(self).wf(),
        ensures
            final(self).wf(),
            final(self)@.nodes == Map::<u128, Node>::empty(),
            final(self)@.edges == Map::<(u128, u128), W>::empty(),
            final(self)@.last_id == old(self)@.last_id,
    {
        self.nodes.clear();
        self.edges.clear();
    }

    /// The number of nodes.
    pub fn node_count(&self) -> (r: usize)
        requires
            self.wf(),
        ensures
            r == self@.nodes.dom().len(),
    {
        proof {
            self.lemma_view_finite();
        }
        self.nodes.len()
    }

    /// The number of edges.
    pub fn edge_count(&self) -> (r: usize)
        requires
            self.wf(),
        ensures
            r == self@.edges.dom().len(),
    {
        proof {
            self.lemma_view_finite();
        }
        self.edges.len()
    }

    /// Stores `vertex` under a fresh identifier and returns that identifier.
    /// The identifier lies above `last_id`, so it differs from every node
    /// identifier and from all identifiers handed out before. A drawn
    /// identifier is used when it lies above `last_id` and at most `ID_CAP`;
    /// otherwise the next one after `last_id` is taken, so starting from an
    /// empty graph any run of fewer than `u128::MAX - ID_CAP` inserts succeeds.
    pub fn insert(&mut self, vertex: Node) -> (id: u128)
        requires
            old(self).wf(),
            old(self).can_insert(),
        ensures
            final(self).wf(),
            old(self)@.last_id < id,
            id <= fresh_bound(old(self)@.last_id),
            final(self)@.last_id == id,
            !old(self)@.nodes.contains_key(id),
            final(self)@.nodes == old(self)@.nodes.insert(id, vertex),
            final(self)@.edges == old(self)@.edges,
            final(self)@ == old(self)@.apply(GraphOp::Insert(id, vertex)),
    {
        let drawn = draw_ulid();
        let id = if drawn > self.last_id && drawn <= ID_CAP {
            drawn
        } else {
            self.last_id + 1
        };
        proof {
            self.lemma_ids_bounded();
        }
        self.put(id, vertex);
        id
    }

    /// Stores `vertex` under a fresh identifier as `insert` does, then merges
    /// `edges` into the edge map, later entries winning. The edges are not
    /// checked against the nodes.
    pub fn insert_with_edges(&mut self, vertex: Node, edges: Vec<((u128, u128), W)>) -> (id: u128)
        requires
            old(self).wf(),
            old(self).can_insert(),
        ensures
            final(self).wf(),
            old(self)@.last_id < id <= fresh_bound(old(self)@.last_id),
            final(self)@.last_id == id,
            !old(self)@.nodes.contains_key(id),
            final(self)@.nodes == old(self)@.nodes.insert(id, vertex),
            final(self)@.edges == old(self)@.edges.union_prefer_right(entries_map(edges@)),
    {
        let id = self.insert(vertex);
        let mut j: usize = 0;
        while j < edges.len()
            invariant
                self.wf(),
                j <= edges.len(),
                self@.last_id == id,
                self@.nodes == old(self)@.nodes.insert(id, vertex),
                self@.edges == old(self)@.edges.union_prefer_right(entries_map(edges@.take(j as int))),
            decreases edges.len() - j,
        {
            assert(edges@.take(j as int + 1).drop_last() =~= edges@.take(j as int));
            self.link(edges[j].0.0, edges[j].0.1, edges[j].1);
            assert(self@.edges =~= old(self)@.edges.union_prefer_right(
                entries_map(edges@.take(j as int + 1)),
            ));
            j = j + 1;
        }
        assert(edges@.take(edges.len() as int) =~= edges@);
        id
    }

    /// Removes node `id` and every edge that starts or ends at it, and
    /// returns the node, or `None` when there is no such node (edges at `id`
    /// are removed either way).
    pub fn remove(&mut self, id: u128) -> (r: Option<Node>)
        requires
            old(self).wf(),
        ensures
            final(self).wf(),
            final(self)@ == old(self)@.removing(id),
            r == (if old(self)@.nodes.contains_key(id) { Some(old(self)@.nodes[id]) } else { None::<Node> }),
    {
        self.remove_edges_at(id);
        match self.find_node(id) {
            Some(i) => {
                proof {
                    lemma_remove_entry(self.nodes@, i as int);
                    lemma_entries_index(self.nodes@, i as int);
                }
                let (_, node) = self.nodes.remove(i);
                Some(node)
            },
            None => {
                assert(self@.nodes.remove(id) =~= self@.nodes);
                None
            },
        }
    }

    /// Drops every edge that starts or ends at `id`.
    fn remove_edges_at(&mut self, id: u128)
        requires
            old(self).wf(),
        ensures
            final(self).wf(),
            final(self)@.nodes == old(self)@.nodes,
            final(self)@.last_id == old(self)@.last_id,
            final(self)@.edges == old(self)@.edges.restrict(
                old(self)@.edges.dom().filter(|e: (u128, u128)| !GraphView::<W>::touches(e, id)),
            ),
    {
        let ghost all = self.edges@;
        let ghost target = old(self)@.edges.restrict(
            old(self)@.edges.dom().filter(|e: (u128, u128)| !GraphView::<W>::touches(e, id)),
        );
        let mut kept: Vec<((u128, u128), W)> = Vec::new();
        let mut j: usize = 0;
        while j < self.edges.len()
            invariant
                self.wf(),
                self.edges@ == all,
                j <= all.len(),
                keys_unique(kept@),
                forall|e: (u128, u128)| #[trigger] entries_map(kept@).contains_key(e) <==> (has_key_at(all.take(j as int), e) && !GraphView::<W>::touches(e, id)),
                forall|e: (u128, u128)| #[trigger] entries_map(kept@).contains_key(e) ==> entries_map(kept@)[e] == entries_map(all)[e],
            decreases all.len() - j,
        {
            let e = self.edges[j];
            proof {
                lemma_entries_index(all, j as int);
                if entries_map(kept@).contains_key(e.0) {
                    let k = choose|k: int| 0 <= k < all.take(j as int).len() && #[trigger] all.take(j as int)[k].0 == e.0;
                    assert(all[k].0 == e.0);
                }
            }
            if e.0.0 != id && e.0.1 != id {
                proof {
                    lemma_push_unique(kept@, e);
                }
                kept.push(e);
            }
            proof {
                lemma_take_has_key(all, j as int);
            }
            j = j + 1;
        }
        proof {
            assert(all.take(all.len() as int) =~= all);
            assert forall|f: (u128, u128)| #![auto] entries_map(kept@).contains_key(f) <==> target.contains_key(f) by {
                lemma_entries_dom(all, f);
            }
            assert(entries_map(kept@) =~= target);
        }
        self.edges = kept;
    }

    /// The edges whose two ends are both listed in `ids`.
    pub fn edges_among(&self, ids: &Vec<u128>) -> (r: Vec<((u128, u128), W)>)
        requires
            self.wf(),
        ensures
            keys_unique(r@),
            entries_map(r@) == self@.edges.restrict(
                self@.edges.dom().filter(|e: (u128, u128)| ids@.contains(e.0) && ids@.contains(e.1)),
            ),
    {
        let ghost all = self.edges@;
        let ghost target = self@.edges.restrict(
            self@.edges.dom().filter(|e: (u128, u128)| ids@.contains(e.0) && ids@.contains(e.1)),
        );
        let mut kept: Vec<((u128, u128), W)> = Vec::new();
        let mut j: usize = 0;
        while j < self.edges.len()
            invariant
                self.wf(),
                self.edges@ == all,
                j <= all.len(),
                keys_unique(kept@),
                forall|e: (u128, u128)| #[trigger] entries_map(kept@).contains_key(e) <==> (has_key_at(all.take(j as int), e) && ids@.contains(e.0) && ids@.contains(e.1)),
                forall|e: (u128, u128)| #[trigger] entries_map(kept@).contains_key(e) ==> entries_map(kept@)[e] == entries_map(all)[e],
            decreases all.len() - j,
        {
            let e = self.edges[j];
            proof {
                lemma_entries_index(all, j as int);
                if entries_map(kept@).contains_key(e.0) {
                    let k = choose|k: int| 0 <= k < all.take(j as int).len() && #[trigger] all.take(j as int)[k].0 == e.0;
                    assert(all[k].0 == e.0);
                }
            }
            if contains_id(ids, e.0.0) && contains_id(ids, e.0.1) {
                proof {
                    lemma_push_unique(kept@, e);
                }
                kept.push(e);
            }
            proof {
                lemma_take_has_key(all, j as int);
            }
            j = j + 1;
        }
        proof {
            assert(all.take(all.len() as int) =~= all);
            assert forall|f: (u128, u128)| #![auto] entries_map(kept@).contains_key(f) <==> target.contains_key(f) by {
                lemma_entries_dom(all, f);
            }
            assert(entries_map(kept@) =~= target);
        }
        kept
    }

    /// Inserts the edge `(v1, v2)` with `weight`, replacing any weight it had.
    /// The endpoints need not be nodes of the graph.
    pub fn link(&mut self, v1: u128, v2: u128, weight: W)
        requires
            old(self).wf(),
        ensures
            final(self).wf(),
            final(self)@ == old(self)@.linking(v1, v2, weight),
    {
        match self.find_edge(v1, v2) {
            Some(i) => {
                proof {
                    lemma_update_value(self.edges@, i as int, weight);
                }
                self.edges.set(i, ((v1, v2), weight));
            },
            None => {
                proof {
                    lemma_push_unique(self.edges@, ((v1, v2), weight));
                }
                self.edges.push(((v1, v2), weight));
            },
        }
    }

    /// Whether the edge `(node1, node2)` exists.
    pub fn linked(&self, node1: u128, node2: u128) -> (r: bool)
        requires
            self.wf(),
        ensures
            r == self@.edges.contains_key((node1, node2)),
    {
        match self.find_edge(node1, node2) {
            Some(i) => {
                proof {
                    lemma_entries_index(self.edges@, i as int);
                }
                true
            },
            None => false,
        }
    }

    /// The node stored under `id`.
    pub fn get(&self, id: u128) -> (r: Option<&Node>)
        requires
            self.wf(),
        ensures
            match r {
                Some(n) => self@.nodes.contains_key(id) && *n == self@.nodes[id],
                None => !self@.nodes.contains_key(id),
            },
    {
        match self.find_node(id) {
            Some(i) => {
                proof {
                    lemma_entries_index(self.nodes@, i as int);
                }
                Some(&self.nodes[i].1)
            },
            None => None,
        }
    }

    /// Replaces the node stored under `id`, if there is one, and says whether
    /// there was.
    pub fn update(&mut self, id: u128, node: Node) -> (found: bool)
        requires
            old(self).wf(),
        ensures
            final(self).wf(),
            found == old(self)@.nodes.contains_key(id),
            final(self)@.nodes == if found { old(self)@.nodes.insert(id, node) } else { old(self)@.nodes },
            final(self)@.edges == old(self)@.edges,
            final(self)@.last_id == old(self)@.last_id,
    {
        match self.find_node(id) {
            Some(i) => {
                proof {
                    lemma_entries_index(self.nodes@, i as int);
                    lemma_update_value(self.nodes@, i as int, node);
                }
                self.nodes.set(i, (id, node));
                true
            },
            None => false,
        }
    }

    /// Gives the node stored under `id`, if there is one, the display colour
    /// `color`, and says whether there was.
    pub fn set_color(&mut self, id: u128, color: Color) -> (found: bool)
        requires
            old(self).wf(),
        ensures
            final(self).wf(),
            found == old(self)@.nodes.contains_key(id),
            final(self)@.nodes == if found {
                old(self)@.nodes.insert(id, Node { color, ..old(self)@.nodes[id] })
            } else {
                old(self)@.nodes
            },
            final(self)@.edges == old(self)@.edges,
            final(self)@.last_id == old(self)@.last_id,
    {
        match self.get(id) {
            Some(n) => {
                let mut node = n.clone();
                node.color = color;
                self.update(id, node)
            },
            None => false,
        }
    }

    /// The targets of the edges that leave `node`, each with its weight, in
    /// no particular order.
    pub fn neighbors_out(&self, node: u128) -> (r: Vec<(u128, W)>)
        requires
            self.wf(),
        ensures
            keys_unique(r@),
            entries_map(r@) == out_map(self@.edges, node),
    {
        self.neighbors(node, true)
    }

    /// The sources of the edges that enter `node`, each with its weight, in
    /// no particular order.
    pub fn neighbors_in(&self, node: u128) -> (r: Vec<(u128, W)>)
        requires
            self.wf(),
        ensures
            keys_unique(r@),
            entries_map(r@) == in_map(self@.edges, node),
    {
        self.neighbors(node, false)
    }

    /// A scan of the edges at `node`: leaving it when `outgoing`, entering it
    /// otherwise.
    fn neighbors(&self, node: u128, outgoing: bool) -> (r: Vec<(u128, W)>)
        requires
            self.wf(),
        ensures
            keys_unique(r@),
            outgoing ==> entries_map(r@) == out_map(self@.edges, node),
            !outgoing ==> entries_map(r@) == in_map(self@.edges, node),
    {
        let ghost all = self.edges@;
        let mut r: Vec<(u128, W)> = Vec::new();
        let mut j: usize = 0;
        while j < self.edges.len()
            invariant
                self.wf(),
                self.edges@ == all,
                j <= all.len(),
                keys_unique(r@),
                forall|t: u128| #[trigger] entries_map(r@).contains_key(t) <==> has_key_at(all.take(j as int), pair_of(node, t, outgoing)),
                forall|t: u128| #[trigger] entries_map(r@).contains_key(t) ==> entries_map(r@)[t] == entries_map(all)[pair_of(node, t, outgoing)],
            decreases all.len() - j,
        {
            let e = self.edges[j];
            let hit = if outgoing { e.0.0 == node } else { e.0.1 == node };
            let other = if outgoing { e.0.1 } else { e.0.0 };
            proof {
                lemma_entries_index(all, j as int);
                assert(hit ==> pair_of(node, other, outgoing) == e.0);
                assert(forall|t: u128| #[trigger] pair_of(node, t, outgoing) == e.0 ==> hit && t == other);
                if hit && entries_map(r@).contains_key(other) {
                    let k = choose|k: int| 0 <= k < all.take(j as int).len() && #[trigger] all.take(j as int)[k].0 == pair_of(node, other, outgoing);
                    assert(all[k].0 == e.0);
                }
            }
            if hit {
                proof {
                    lemma_push_unique(r@, (other, e.1));
                }
                r.push((other, e.1));
            }
            proof {
                lemma_take_has_key(all, j as int);
            }
            j = j + 1;
        }
        proof {
            assert(all.take(all.len() as int) =~= all);
            assert forall|t: u128| #![auto] entries_map(r@).contains_key(t) <==> entries_map(all).contains_key(pair_of(node, t, outgoing)) by {
                lemma_entries_dom(all, pair_of(node, t, outgoing));
            }
            if outgoing {
                assert(entries_map(r@) =~= out_map(self@.edges, node));
            } else {
                assert(entries_map(r@) =~= in_map(self@.edges, node));
            }
        }
        r
    }
}

/// Whether `ids` lists `id`.
pub(crate) fn contains_id(ids: &Vec<u128>, id: u128) -> (r: bool)
    ensures
        r == ids@.contains(id),
{
    let mut i: usize = 0;
    while i < ids.len()
        invariant
            i <= ids.len(),
            forall|k: int| 0 <= k < i ==> ids@[k] != id,
        decreases ids.len() - i,
    {
        if ids[i] == id {
            return true;
        }
        i = i + 1;
    }
    false
}

/// The edge from `node` to `t` when `outgoing`, else from `t` to `node`.
spec fn pair_of(node: u128, t: u128, outgoing: bool) -> (u128, u128) {
    if outgoing {
        (node, t)
    } else {
        (t, node)
    }
}

/// The edges leaving `node`, by target.
pub open spec fn out_map<W>(edges: Map<(u128, u128), W>, node: u128) -> Map<u128, W> {
    Map::new(|t: u128| edges.contains_key((node, t)), |t: u128| edges[(node, t)])
}

/// The edges entering `node`, by source.
pub open spec fn in_map<W>(edges: Map<(u128, u128), W>, node: u128) -> Map<u128, W> {
    Map::new(|s: u128| edges.contains_key((s, node)), |s: u128| edges[(s, node)])
}

} // verus!
