use vstd::prelude::*;

use crate::coloring::distinct;
use crate::entries::{
    lemma_take_contains, lemma_take_has_key,
    assoc_get, assoc_put, entries_map, has_key_at, keys_unique, lemma_entries_dom, lemma_entries_index,
};
use crate::history::lemma_removing_all_node;
use crate::oriented::{fresh_bound, GraphView, OrientedGraph};
use crate::shortest::{is_path_between, path_weight};

verus! {

/// What a pointer gesture on the canvas does.
#[derive(Clone, Copy, Debug, PartialEq, Eq, Structural)]
pub enum GraphTools {
    Look,
    Nodes,
    Links,
}

impl Default for GraphTools {
    fn default() -> (r: Self)
        ensures
            r == GraphTools::Look,
    {
        GraphTools::Look
    }
}

/// The state of the side panel.
#[derive(Debug)]
pub struct GraphInspector {
    pub message: String,
}

/// The editing state: a list of graphs with one of them selected, the nodes
/// selected in it, the clipboard graph, and the current tool.
pub struct GraphDisplayer {
    pub graphs: Vec<OrientedGraph<u32>>,
    pub selected_graph: usize,
    pub selected_nodes: Vec<u128>,
    pub temporary: OrientedGraph<u32>,
    pub tool: GraphTools,
    pub inspector: GraphInspector,
}

impl Default for GraphDisplayer {
    fn default() -> (r: Self)
        ensures
            r.wf(),
            r.graphs.len() == 1,
            r.graphs@[0]@.nodes.dom().len() == 0,
            r.selected_nodes.len() == 0,
            r.tool == GraphTools::Look,
    {
        let message = ":3".to_owned();
        let r = GraphDisplayer {
            graphs: vec![OrientedGraph::empty()],
            selected_graph: 0,
            selected_nodes: Vec::new(),
            temporary: OrientedGraph::empty(),
            tool: GraphTools::Look,
            inspector: GraphInspector { message },
        };
        proof {
            r.graphs@[0].lemma_view_finite();
        }
        r
    }
}

impl GraphDisplayer {
    /// A graph is selected, every graph is well formed, and no node is
    /// selected twice.
    pub open spec fn wf(&self) -> bool {
        &&& self.selected_graph < self.graphs.len()
        &&& forall|i: int| 0 <= i < self.graphs.len() ==> (#[trigger] self.graphs@[i]).wf()
        &&& self.temporary.wf()
        &&& distinct(self.selected_nodes@)
    }

    /// The abstract state of the selected graph.
    pub open spec fn current(&self) -> GraphView<u32> {
        self.graphs@[self.selected_graph as int]@
    }

    /// Every graph but the selected one is as in `other`.
    pub open spec fn others_kept(&self, other: &GraphDisplayer) -> bool {
        &&& self.graphs.len() == other.graphs.len()
        &&& self.selected_graph == other.selected_graph
        &&& forall|i: int|
            0 <= i < self.graphs.len() && i != self.selected_graph ==> #[trigger] self.graphs@[i]
                == other.graphs@[i]
    }
}

/// The edges of `g` whose two ends are both listed in `ids`.
pub open spec fn edges_within(g: GraphView<u32>, ids: Seq<u128>) -> Map<(u128, u128), u32> {
    g.edges.restrict(g.edges.dom().filter(|e: (u128, u128)| ids.contains(e.0) && ids.contains(e.1)))
}

/// The nodes of `g` listed in `ids`.
pub open spec fn nodes_within(g: GraphView<u32>, ids: Seq<u128>) -> Map<u128, crate::node::Node> {
    g.nodes.restrict(g.nodes.dom().filter(|id: u128| ids.contains(id)))
}

/// Removes every selected node from the selected graph, with the edges at
/// them, and clears the selection.
pub fn delete_nodes(display: &mut GraphDisplayer)
    requires
        old(display).wf(),
    ensures
        final(display).wf(),
        final(display).others_kept(old(display)),
        final(display).current() == old(display).current().removing_all(old(display).selected_nodes@),
        final(display).selected_nodes.len() == 0,
        final(display).temporary == old(display).temporary,
{
    let sel = display.selected_graph;
    let ghost g0 = display.current();
    let ghost ids = display.selected_nodes@;
    let mut k: usize = 0;
    while k < display.selected_nodes.len()
        invariant
            display.wf(),
            display.others_kept(old(display)),
            display.selected_graph == sel,
            display.selected_nodes@ == ids,
            display.temporary == old(display).temporary,
            k <= ids.len(),
            display.current() == g0.removing_all(ids.take(k as int)),
        decreases ids.len() - k,
    {
        let id = display.selected_nodes[k];
        assert(ids.take(k as int + 1).drop_last() =~= ids.take(k as int));
        display.graphs[sel].remove(id);
        k = k + 1;
    }
    assert(ids.take(ids.len() as int) =~= ids);
    display.selected_nodes = Vec::new();
}

/// Links every selected node to every selected node, itself included, with
/// weight 0. The pairs run both ways, so asking for double links changes
/// nothing.
pub fn link_selected(display: &mut GraphDisplayer)
    requires
        old(display).wf(),
    ensures
        final(display).wf(),
        final(display).others_kept(old(display)),
        final(display).selected_nodes@ == old(display).selected_nodes@,
        final(display).temporary == old(display).temporary,
        final(display).current().nodes == old(display).current().nodes,
        final(display).current().edges == old(display).current().edges.union_prefer_right(
            Map::new(
                |e: (u128, u128)|
                    old(display).selected_nodes@.contains(e.0) && old(display).selected_nodes@.contains(e.1),
                |e: (u128, u128)| 0u32,
            ),
        ),
{
    let sel = display.selected_graph;
    let ghost g0 = display.current();
    let ghost ids = display.selected_nodes@;
    let n = display.selected_nodes.len();
    let mut a: usize = 0;
    while a < n
        invariant
            display.wf(),
            display.others_kept(old(display)),
            display.selected_graph == sel,
            display.selected_nodes@ == ids,
            n == ids.len(),
            display.temporary == old(display).temporary,
            a <= n,
            display.current().nodes == g0.nodes,
            display.current().edges == g0.edges.union_prefer_right(
                Map::new(
                    |e: (u128, u128)| ids.take(a as int).contains(e.0) && ids.contains(e.1),
                    |e: (u128, u128)| 0u32,
                ),
            ),
        decreases n - a,
    {
        let mut b: usize = 0;
        while b < n
            invariant
                display.wf(),
                display.others_kept(old(display)),
                display.selected_graph == sel,
                display.selected_nodes@ == ids,
                n == ids.len(),
                display.temporary == old(display).temporary,
                a < n,
                b <= n,
                display.current().nodes == g0.nodes,
                display.current().edges == g0.edges.union_prefer_right(
                    Map::new(
                        |e: (u128, u128)|
                            (ids.take(a as int).contains(e.0) && ids.contains(e.1)) || (e.0 == ids[a as int]
                                && ids.take(b as int).contains(e.1)),
                        |e: (u128, u128)| 0u32,
                    ),
                ),
            decreases n - b,
        {
            let x = display.selected_nodes[a];
            let y = display.selected_nodes[b];
            display.graphs[sel].link(x, y, 0);
            proof {
                lemma_take_contains(ids, b as int);
                assert forall|v: u128| ids.take(a as int).contains(v) implies ids.contains(v) by {
                    {
                        let k = choose|k: int| 0 <= k < a && #[trigger] ids.take(a as int)[k] == v;
                        assert(ids[k] == v);
                    }
                }
                assert(ids.contains(y)) by {
                    assert(ids[b as int] == y);
                }
                let m_old = Map::new(
                    |e: (u128, u128)|
                        (ids.take(a as int).contains(e.0) && ids.contains(e.1)) || (e.0 == ids[a as int]
                            && ids.take(b as int).contains(e.1)),
                    |e: (u128, u128)| 0u32,
                );
                let m_new = Map::new(
                    |e: (u128, u128)|
                        (ids.take(a as int).contains(e.0) && ids.contains(e.1)) || (e.0 == ids[a as int]
                            && ids.take(b as int + 1).contains(e.1)),
                    |e: (u128, u128)| 0u32,
                );
                assert(x == ids[a as int]);
                assert(y == ids[b as int]);
                assert forall|e: (u128, u128)| #[trigger] m_new.contains_key(e) <==> m_old.insert((x, y), 0u32).contains_key(e) by {
                    if e.0 == ids[a as int] && e.1 == y {
                        assert(ids.take(b as int + 1)[b as int] == e.1);
                        assert(ids.take(b as int + 1).contains(e.1));
                    }
                    if e.0 == ids[a as int] && ids.take(b as int + 1).contains(e.1) && e.1 != y {
                        assert(ids.take(b as int).contains(e.1));
                    }
                }
                assert(m_new =~= m_old.insert((x, y), 0u32));
                assert(display.current().edges =~= g0.edges.union_prefer_right(m_new));
            }
            b = b + 1;
        }
        proof {
            assert(ids.take(n as int) =~= ids);
            lemma_take_contains(ids, a as int);
            assert(display.current().edges =~= g0.edges.union_prefer_right(
                Map::new(
                    |e: (u128, u128)| ids.take(a as int + 1).contains(e.0) && ids.contains(e.1),
                    |e: (u128, u128)| 0u32,
                ),
            ));
        }
        a = a + 1;
    }
    assert(ids.take(n as int) =~= ids);
}

/// Moves the selected nodes of the selected graph, with the edges among
/// them, into the clipboard graph, which they replace; the moved nodes keep
/// their identifiers. The nodes leave the selected graph with every edge at
/// them, and the selection is cleared. Nothing happens when nothing is
/// selected.
pub fn cut_nodes(display: &mut GraphDisplayer)
    requires
        old(display).wf(),
    ensures
        final(display).wf(),
        final(display).others_kept(old(display)),
        old(display).selected_nodes.len() == 0 ==> final(display).current() == old(display).current()
            && final(display).temporary == old(display).temporary
            && final(display).selected_nodes@ == old(display).selected_nodes@,
        old(display).selected_nodes.len() > 0 ==> {
            &&& final(display).current() == old(display).current().removing_all(old(display).selected_nodes@)
            &&& final(display).temporary@.nodes == nodes_within(old(display).current(), old(display).selected_nodes@)
            &&& final(display).temporary@.edges == edges_within(old(display).current(), old(display).selected_nodes@)
            &&& final(display).selected_nodes.len() == 0
        },
{
    if display.selected_nodes.len() == 0 {
        return;
    }
    let sel = display.selected_graph;
    let ghost g0 = display.current();
    let ghost ids = display.selected_nodes@;
    let edges = display.graphs[sel].edges_among(&display.selected_nodes);
    let mut nodes: Vec<(u128, crate::node::Node)> = Vec::new();
    proof {
        display.graphs@[sel as int].lemma_ids_bounded();
    }
    let bound = display.graphs[sel].last_id;
    let mut k: usize = 0;
    while k < display.selected_nodes.len()
        invariant
            display.wf(),
            display.others_kept(old(display)),
            display.selected_graph == sel,
            display.selected_nodes@ == ids,
            display.temporary == old(display).temporary,
            k <= ids.len(),
            bound == g0.last_id,
            forall|id: u128| #[trigger] g0.nodes.contains_key(id) ==> id <= g0.last_id,
            display.current() == g0.removing_all(ids.take(k as int)),
            keys_unique(nodes@),
            forall|i: int| 0 <= i < nodes.len() ==> (#[trigger] nodes@[i]).0 <= bound,
            entries_map(nodes@) == nodes_within(g0, ids.take(k as int)),
        decreases ids.len() - k,
    {
        let id = display.selected_nodes[k];
        assert(ids.take(k as int + 1).drop_last() =~= ids.take(k as int));
        proof {
            lemma_removing_all_node(g0, ids.take(k as int), id);
            assert(!ids.take(k as int).contains(id)) by {
                if ids.take(k as int).contains(id) {
                    let m = choose|m: int| 0 <= m < k && #[trigger] ids.take(k as int)[m] == id;
                    assert(ids[m] == ids[k as int]);
                }
            }
            assert(ids.take(k as int + 1)[k as int] == id);
            lemma_take_contains(ids, k as int);
        }
        let removed = display.graphs[sel].remove(id);
        match removed {
            Some(node) => {
                proof {
                    assert(!entries_map(nodes@).contains_key(id));
                    crate::entries::lemma_push_unique(nodes@, (id, node));
                }
                nodes.push((id, node));
                assert(entries_map(nodes@) =~= nodes_within(g0, ids.take(k as int + 1)));
            },
            None => {
                assert(entries_map(nodes@) =~= nodes_within(g0, ids.take(k as int + 1)));
            },
        }
        k = k + 1;
    }
    assert(ids.take(ids.len() as int) =~= ids);
    display.temporary = OrientedGraph { nodes, edges, last_id: bound };
    display.selected_nodes = Vec::new();
}

/// Moves the clipboard graph into the selected graph: its nodes and edges
/// are stored under their identifiers, replacing what was there, and become
/// the selection. The clipboard is left without nodes or edges.
pub fn paste_nodes(display: &mut GraphDisplayer)
    requires
        old(display).wf(),
    ensures
        final(display).wf(),
        final(display).others_kept(old(display)),
        final(display).current().nodes == old(display).current().nodes.union_prefer_right(old(display).temporary@.nodes),
        final(display).current().edges == old(display).current().edges.union_prefer_right(old(display).temporary@.edges),
        forall|id: u128| #[trigger] final(display).selected_nodes@.contains(id) <==> old(display).temporary@.nodes.contains_key(id),
        final(display).temporary@.nodes.dom().len() == 0,
        final(display).temporary@.edges.dom().len() == 0,
{
    let sel = display.selected_graph;
    let ghost g0 = display.current();
    let ghost tn = display.temporary.nodes@;
    let ghost te = display.temporary.edges@;
    let mut selection: Vec<u128> = Vec::new();
    let mut k: usize = 0;
    while k < display.temporary.nodes.len()
        invariant
            display.wf(),
            display.others_kept(old(display)),
            display.selected_graph == sel,
            display.temporary == old(display).temporary,
            tn == display.temporary.nodes@,
            keys_unique(tn),
            k <= tn.len(),
            display.current().nodes == g0.nodes.union_prefer_right(entries_map(tn.take(k as int))),
            display.current().edges == g0.edges,
            selection.len() == k,
            forall|m: int| 0 <= m < k ==> #[trigger] selection@[m] == tn[m].0,
        decreases tn.len() - k,
    {
        let id = display.temporary.nodes[k].0;
        let node = display.temporary.nodes[k].1.clone();
        assert(tn.take(k as int + 1).drop_last() =~= tn.take(k as int));
        display.graphs[sel].put(id, node);
        selection.push(id);
        assert(display.current().nodes =~= g0.nodes.union_prefer_right(entries_map(tn.take(k as int + 1))));
        k = k + 1;
    }
    assert(tn.take(tn.len() as int) =~= tn);
    let mut j: usize = 0;
    while j < display.temporary.edges.len()
        invariant
            display.wf(),
            display.others_kept(old(display)),
            display.selected_graph == sel,
            display.temporary == old(display).temporary,
            te == display.temporary.edges@,
            j <= te.len(),
            display.current().nodes == g0.nodes.union_prefer_right(entries_map(tn)),
            display.current().edges == g0.edges.union_prefer_right(entries_map(te.take(j as int))),
        decreases te.len() - j,
    {
        let e = display.temporary.edges[j];
        assert(te.take(j as int + 1).drop_last() =~= te.take(j as int));
        display.graphs[sel].link(e.0.0, e.0.1, e.1);
        assert(display.current().edges =~= g0.edges.union_prefer_right(entries_map(te.take(j as int + 1))));
        j = j + 1;
    }
    assert(te.take(te.len() as int) =~= te);
    proof {
        assert forall|a: int, b: int| 0 <= a < b < selection.len() implies selection@[a] != selection@[b] by {
            assert(selection@[a] == tn[a].0 && selection@[b] == tn[b].0);
        }
        assert forall|id: u128| #[trigger] selection@.contains(id) <==> entries_map(tn).contains_key(id) by {
            lemma_entries_dom(tn, id);
            if selection@.contains(id) {
                let m = choose|m: int| 0 <= m < selection.len() && selection@[m] == id;
                assert(tn[m].0 == id);
            }
            if crate::entries::has_key_at(tn, id) {
                let m = choose|m: int| 0 <= m < tn.len() && #[trigger] tn[m].0 == id;
                assert(selection@[m] == id);
            }
        }
    }
    display.selected_nodes = selection;
    display.temporary.nodes = Vec::new();
    display.temporary.edges = Vec::new();
    proof {
        display.temporary.lemma_view_finite();
    }
}

/// `t` holds copies of the nodes of `g` listed in `ids`, and of the edges
/// among them, under the fresh identifiers that `m` gives each copied node.
/// All listed nodes are copied when the identifiers above `g.last_id` leave
/// room for one fresh identifier per listed node.
pub open spec fn is_copy(g: GraphView<u32>, ids: Seq<u128>, m: Map<u128, u128>, t: GraphView<u32>) -> bool {
    &&& forall|x: u128| #[trigger]
        m.contains_key(x) ==> ids.contains(x) && g.nodes.contains_key(x) && g.last_id < m[x]
    &&& fresh_bound(g.last_id) + ids.len() <= u128::MAX ==> forall|x: u128|
        ids.contains(x) && #[trigger] g.nodes.contains_key(x) ==> m.contains_key(x)
    &&& forall|x: u128, y: u128|
        #[trigger] m.contains_key(x) && #[trigger] m.contains_key(y) && x != y ==> m[x] != m[y]
    &&& forall|x: u128| #[trigger]
        m.contains_key(x) ==> t.nodes.contains_key(m[x]) && t.nodes[m[x]] == g.nodes[x]
    &&& forall|y: u128| #[trigger]
        t.nodes.contains_key(y) ==> exists|x: u128| #[trigger] m.contains_key(x) && m[x] == y
    &&& forall|x1: u128, x2: u128|
        m.contains_key(x1) && m.contains_key(x2) && #[trigger] g.edges.contains_key((x1, x2))
            ==> t.edges.contains_key((m[x1], m[x2])) && t.edges[(m[x1], m[x2])] == g.edges[(x1, x2)]
    &&& forall|f: (u128, u128)| #[trigger]
        t.edges.contains_key(f) ==> exists|x1: u128, x2: u128|
            m.contains_key(x1) && m.contains_key(x2) && #[trigger] g.edges.contains_key((x1, x2))
                && f == (m[x1], m[x2])
}

/// Copies the selected nodes of the selected graph, with the edges among
/// them, into the clipboard graph, which they replace. Each copy gets a fresh
/// identifier above every identifier of the selected graph, so pasting back
/// there adds nodes beside the originals. Nothing happens when nothing is
/// selected.
pub fn copy_nodes(display: &mut GraphDisplayer)
    requires
        old(display).wf(),
    ensures
        final(display).wf(),
        final(display).graphs@ == old(display).graphs@,
        final(display).selected_graph == old(display).selected_graph,
        final(display).selected_nodes@ == old(display).selected_nodes@,
        old(display).selected_nodes.len() == 0 ==> final(display).temporary == old(display).temporary,
        old(display).selected_nodes.len() > 0 ==> exists|m: Map<u128, u128>|
            is_copy(old(display).current(), old(display).selected_nodes@, m, #[trigger] final(display).temporary@),
{
    if display.selected_nodes.len() == 0 {
        return;
    }
    let g = &display.graphs[display.selected_graph];
    let ghost gv = g@;
    let ghost ids = display.selected_nodes@;
    let mut temp: OrientedGraph<u32> = OrientedGraph { nodes: Vec::new(), edges: Vec::new(), last_id: g.last_id };
    let mut id_map: Vec<(u128, u128)> = Vec::new();
    let mut k: usize = 0;
    while k < display.selected_nodes.len()
        invariant
            g.wf(),
            gv == g@,
            ids == display.selected_nodes@,
            distinct(ids),
            k <= ids.len(),
            temp.wf(),
            temp@.edges == Map::<(u128, u128), u32>::empty(),
            gv.last_id <= temp.last_id,
            keys_unique(id_map@),
            ({
                let m = entries_map(id_map@);
                let t = temp@;
                &&& forall|x: u128| #[trigger]
                    m.contains_key(x) ==> ids.take(k as int).contains(x) && gv.nodes.contains_key(x) && gv.last_id < m[x] && m[x] <= t.last_id
                &&& t.last_id <= fresh_bound(gv.last_id) + k - 1
                &&& fresh_bound(gv.last_id) + ids.len() <= u128::MAX ==> forall|x: u128|
                    ids.take(k as int).contains(x) && #[trigger] gv.nodes.contains_key(x) ==> m.contains_key(x)
                &&& forall|x: u128, y: u128|
                    #[trigger] m.contains_key(x) && #[trigger] m.contains_key(y) && x != y ==> m[x] != m[y]
                &&& forall|x: u128| #[trigger]
                    m.contains_key(x) ==> t.nodes.contains_key(m[x]) && t.nodes[m[x]] == gv.nodes[x]
                &&& forall|y: u128| #[trigger]
                    t.nodes.contains_key(y) ==> exists|x: u128| #[trigger] m.contains_key(x) && m[x] == y
            }),
        decreases ids.len() - k,
    {
        let id = display.selected_nodes[k];
        let ghost m0 = entries_map(id_map@);
        proof {
            assert(ids.take(k as int + 1)[k as int] == id);
            lemma_take_contains(ids, k as int);
            assert(!ids.take(k as int).contains(id)) by {
                if ids.take(k as int).contains(id) {
                    let q = choose|q: int| 0 <= q < k && #[trigger] ids.take(k as int)[q] == id;
                    assert(ids[q] == ids[k as int]);
                }
            }
        }
        match g.get(id) {
            Some(n) => {
                if temp.last_id < u128::MAX {
                    let nid = temp.insert(n.clone());
                    assoc_put(&mut id_map, id, nid);
                    proof {
                        let m = entries_map(id_map@);
                        let t = temp@;
                        assert forall|y: u128| #[trigger] t.nodes.contains_key(y) implies exists|x: u128| #[trigger] m.contains_key(x) && m[x] == y by {
                            if y != nid {
                                let x = choose|x: u128| #[trigger] m0.contains_key(x) && m0[x] == y;
                                assert(m.contains_key(x));
                            } else {
                                assert(m.contains_key(id));
                            }
                        }
                    }
                }
            },
            None => {},
        }
        k = k + 1;
    }
    assert(ids.take(ids.len() as int) =~= ids);
    let ghost m = entries_map(id_map@);
    let ghost tn = temp@.nodes;
    let ghost lid = temp.last_id;
    let ghost es = g.edges@;
    let mut j: usize = 0;
    while j < g.edges.len()
        invariant
            g.wf(),
            gv == g@,
            es == g.edges@,
            j <= es.len(),
            temp.wf(),
            temp@.nodes == tn,
            temp.last_id == lid,
            ids == display.selected_nodes@,
            keys_unique(id_map@),
            m == entries_map(id_map@),
            forall|x: u128| #[trigger]
                m.contains_key(x) ==> ids.contains(x) && gv.nodes.contains_key(x) && gv.last_id < m[x],
            fresh_bound(gv.last_id) + ids.len() <= u128::MAX ==> forall|x: u128|
                ids.contains(x) && #[trigger] gv.nodes.contains_key(x) ==> m.contains_key(x),
            forall|x: u128| #[trigger]
                m.contains_key(x) ==> tn.contains_key(m[x]) && tn[m[x]] == gv.nodes[x],
            forall|y: u128| #[trigger]
                tn.contains_key(y) ==> exists|x: u128| #[trigger] m.contains_key(x) && m[x] == y,
            forall|x: u128| #[trigger] m.contains_key(x) ==> m[x] <= temp.last_id,
            forall|x: u128, y: u128|
                #[trigger] m.contains_key(x) && #[trigger] m.contains_key(y) && x != y ==> m[x] != m[y],
            forall|x1: u128, x2: u128|
                m.contains_key(x1) && m.contains_key(x2) && #[trigger] has_key_at(es.take(j as int), (x1, x2))
                    ==> temp@.edges.contains_key((m[x1], m[x2])) && temp@.edges[(m[x1], m[x2])] == gv.edges[(x1, x2)],
            forall|f: (u128, u128)| #[trigger]
                temp@.edges.contains_key(f) ==> exists|x1: u128, x2: u128|
                    m.contains_key(x1) && m.contains_key(x2) && #[trigger] has_key_at(es.take(j as int), (x1, x2))
                        && f == (m[x1], m[x2]),
        decreases es.len() - j,
    {
        let e = g.edges[j];
        proof {
            lemma_entries_index(es, j as int);
            assert(es.take(j as int + 1)[j as int].0 == e.0);
            lemma_take_has_key(es, j as int);
            assert(!has_key_at(es.take(j as int), e.0)) by {
                if has_key_at(es.take(j as int), e.0) {
                    let q = choose|q: int| 0 <= q < es.take(j as int).len() && #[trigger] es.take(j as int)[q].0 == e.0;
                    assert(es[q].0 == es[j as int].0);
                }
            }
        }
        match (assoc_get(&id_map, e.0.0), assoc_get(&id_map, e.0.1)) {
            (Some(a), Some(b)) => {
                temp.link(a, b, e.1);
                proof {
                    let t = temp@;
                    assert forall|x1: u128, x2: u128|
                        m.contains_key(x1) && m.contains_key(x2) && #[trigger] has_key_at(es.take(j as int + 1), (x1, x2))
                            implies t.edges.contains_key((m[x1], m[x2])) && t.edges[(m[x1], m[x2])] == gv.edges[(x1, x2)] by {
                        if (x1, x2) != e.0 {
                            assert(has_key_at(es.take(j as int), (x1, x2)));
                            if (m[x1], m[x2]) == (a, b) {
                                assert(x1 == e.0.0 && x2 == e.0.1);
                            }
                        }
                    }
                    assert forall|f: (u128, u128)| #[trigger] t.edges.contains_key(f) implies exists|x1: u128, x2: u128|
                        m.contains_key(x1) && m.contains_key(x2) && #[trigger] has_key_at(es.take(j as int + 1), (x1, x2))
                            && f == (m[x1], m[x2]) by {
                        if f != (a, b) {
                            let (x1, x2) = choose|x1: u128, x2: u128|
                                m.contains_key(x1) && m.contains_key(x2) && #[trigger] has_key_at(es.take(j as int), (x1, x2))
                                    && f == (m[x1], m[x2]);
                            assert(has_key_at(es.take(j as int + 1), (x1, x2)));
                        } else {
                            assert(has_key_at(es.take(j as int + 1), (e.0.0, e.0.1)));
                        }
                    }
                }
            },
            _ => {
                proof {
                    assert forall|x1: u128, x2: u128|
                        m.contains_key(x1) && m.contains_key(x2) && #[trigger] has_key_at(es.take(j as int + 1), (x1, x2))
                            implies temp@.edges.contains_key((m[x1], m[x2])) && temp@.edges[(m[x1], m[x2])] == gv.edges[(x1, x2)] by {
                        if (x1, x2) != e.0 {
                            assert(has_key_at(es.take(j as int), (x1, x2)));
                        }
                    }
                    assert forall|f: (u128, u128)| #[trigger] temp@.edges.contains_key(f) implies exists|x1: u128, x2: u128|
                        m.contains_key(x1) && m.contains_key(x2) && #[trigger] has_key_at(es.take(j as int + 1), (x1, x2))
                            && f == (m[x1], m[x2]) by {
                        let (x1, x2) = choose|x1: u128, x2: u128|
                            m.contains_key(x1) && m.contains_key(x2) && #[trigger] has_key_at(es.take(j as int), (x1, x2))
                                && f == (m[x1], m[x2]);
                        assert(has_key_at(es.take(j as int + 1), (x1, x2)));
                    }
                }
            },
        }
        j = j + 1;
    }
    proof {
        assert(es.take(es.len() as int) =~= es);
        assert forall|p: (u128, u128)| #[trigger] gv.edges.contains_key(p) <==> has_key_at(es, p) by {
            lemma_entries_dom(es, p);
        }
        let t = temp@;
        assert(forall|x: u128| #[trigger]
            m.contains_key(x) ==> ids.contains(x) && gv.nodes.contains_key(x) && gv.last_id < m[x]);
        assert(fresh_bound(gv.last_id) + ids.len() <= u128::MAX ==> forall|x: u128|
            ids.contains(x) && #[trigger] gv.nodes.contains_key(x) ==> m.contains_key(x));
        assert(forall|x: u128| #[trigger]
            m.contains_key(x) ==> t.nodes.contains_key(m[x]) && t.nodes[m[x]] == gv.nodes[x]);
        assert(forall|y: u128| #[trigger]
            t.nodes.contains_key(y) ==> exists|x: u128| #[trigger] m.contains_key(x) && m[x] == y);
        assert forall|x1: u128, x2: u128|
            m.contains_key(x1) && m.contains_key(x2) && #[trigger] gv.edges.contains_key((x1, x2))
                implies t.edges.contains_key((m[x1], m[x2])) && t.edges[(m[x1], m[x2])] == gv.edges[(x1, x2)] by {
            assert(has_key_at(es, (x1, x2)));
        }
        assert forall|f: (u128, u128)| #[trigger]
            t.edges.contains_key(f) implies exists|x1: u128, x2: u128|
                m.contains_key(x1) && m.contains_key(x2) && #[trigger] gv.edges.contains_key((x1, x2))
                    && f == (m[x1], m[x2]) by {
            let (x1, x2) = choose|x1: u128, x2: u128|
                m.contains_key(x1) && m.contains_key(x2) && #[trigger] has_key_at(es, (x1, x2))
                    && f == (m[x1], m[x2]);
            assert(gv.edges.contains_key((x1, x2)));
        }
        assert(is_copy(gv, ids, m, temp@));
    }
    display.temporary = temp;
    assert(gv == old(display).current());
    assert(ids == old(display).selected_nodes@);
    assert(is_copy(old(display).current(), old(display).selected_nodes@, m, display.temporary@));
}

/// Adds `x` to `sel` unless it is there already.
fn add_to_selection(sel: &mut Vec<u128>, x: u128)
    requires
        distinct(old(sel)@),
    ensures
        distinct(final(sel)@),
        forall|v: u128| #[trigger] final(sel)@.contains(v) <==> old(sel)@.contains(v) || v == x,
{
    if !crate::oriented::contains_id(sel, x) {
        sel.push(x);
        proof {
            assert forall|v: u128| #[trigger] sel@.contains(v) <==> old(sel)@.contains(v) || v == x by {
                if sel@.contains(v) && v != x {
                    let k = choose|k: int| 0 <= k < sel.len() && sel@[k] == v;
                    assert(old(sel)@[k] == v);
                }
                if old(sel)@.contains(v) {
                    let k = choose|k: int| 0 <= k < old(sel).len() && old(sel)@[k] == v;
                    assert(sel@[k] == v);
                }
                if v == x {
                    assert(sel@[sel.len() - 1] == x);
                }
            }
        }
    }
}

/// Selects a cheapest walk to `target` from one of the selected nodes: the
/// walk's nodes join the selection, which otherwise keeps only the walk's
/// start unless `keep_others` holds. When no selected node leads to
/// `target`, the selection is kept or, without `keep_others`, cleared.
/// Nothing happens when the edge weights of the selected graph do not fit
/// `u32` in sum.
pub fn select_path_to(display: &mut GraphDisplayer, target: u128, keep_others: bool)
    requires
        old(display).wf(),
    ensures
        final(display).wf(),
        final(display).graphs@ == old(display).graphs@,
        final(display).selected_graph == old(display).selected_graph,
        final(display).temporary == old(display).temporary,
        ({
            let g = old(display).graphs@[old(display).selected_graph as int];
            let e = old(display).current().edges;
            let s = old(display).selected_nodes@;
            let t = final(display).selected_nodes@;
            if g.total_weight() > u32::MAX {
                t == s
            } else if exists|m: u128, p: Seq<u128>| s.contains(m) && #[trigger] is_path_between(e, p, m, target) {
                exists|m: u128, p: Seq<u128>| {
                    &&& s.contains(m)
                    &&& #[trigger] is_path_between(e, p, m, target)
                    &&& forall|m2: u128, p2: Seq<u128>|
                        s.contains(m2) && #[trigger] is_path_between(e, p2, m2, target) ==> path_weight(e, p) <= path_weight(e, p2)
                    &&& forall|v: u128| #[trigger] t.contains(v) <==> (if keep_others { s.contains(v) } else { v == m }) || p.contains(v)
                }
            } else {
                forall|v: u128| #[trigger] t.contains(v) <==> keep_others && s.contains(v)
            }
        }),
{
    let ghost e = display.current().edges;
    let ghost s = display.selected_nodes@;
    let graph = &display.graphs[display.selected_graph];
    if !graph.weights_fit() {
        return;
    }
    let mut best: Option<(u32, Vec<u128>, u128)> = None;
    let mut k: usize = 0;
    while k < display.selected_nodes.len()
        invariant
            graph.wf(),
            graph@.edges == e,
            graph.total_weight() <= u32::MAX,
            display.selected_nodes@ == s,
            k <= s.len(),
            match best {
                Some((c, p, m)) => {
                    &&& s.contains(m)
                    &&& is_path_between(e, p@, m, target)
                    &&& path_weight(e, p@) == c
                    &&& forall|j: int, p2: Seq<u128>|
                        0 <= j < k && #[trigger] is_path_between(e, p2, s[j], target) ==> c <= path_weight(e, p2)
                },
                None => forall|j: int, p2: Seq<u128>| 0 <= j < k ==> !#[trigger] is_path_between(e, p2, s[j], target),
            },
        decreases s.len() - k,
    {
        let n = display.selected_nodes[k];
        let found = graph.dijkstra(n, target);
        match found {
            Some((path, cost)) => {
                let better = match &best {
                    Some((c, _, _)) => cost < *c,
                    None => true,
                };
                if better {
                    proof {
                        assert(s.contains(n)) by {
                            assert(s[k as int] == n);
                        }
                    }
                    best = Some((cost, path, n));
                }
            },
            None => {},
        }
        k = k + 1;
    }
    match best {
        Some((_, path, start)) => {
            let mut selection: Vec<u128> = Vec::new();
            if keep_others {
                selection = display.selected_nodes.clone();
            } else {
                selection.push(start);
            }
            let ghost base = selection@;
            let mut j: usize = 0;
            while j < path.len()
                invariant
                    j <= path.len(),
                    distinct(selection@),
                    forall|v: u128| #[trigger] selection@.contains(v) <==> base.contains(v) || path@.take(j as int).contains(v),
                decreases path.len() - j,
            {
                add_to_selection(&mut selection, path[j]);
                proof {
                    lemma_take_contains(path@, j as int);
                }
                j = j + 1;
            }
            proof {
                assert(path@.take(path.len() as int) =~= path@);
                assert forall|v: u128| #[trigger] base.contains(v) <==> (if keep_others { s.contains(v) } else { v == start }) by {
                    if !keep_others && base.contains(v) {
                        let q = choose|q: int| 0 <= q < base.len() && base[q] == v;
                    }
                    if !keep_others && v == start {
                        assert(base[0] == v);
                    }
                }
                assert forall|m2: u128, p2: Seq<u128>|
                    s.contains(m2) && #[trigger] is_path_between(e, p2, m2, target) implies path_weight(e, path@) <= path_weight(e, p2) by {
                    let q = choose|q: int| 0 <= q < s.len() && s[q] == m2;
                    assert(is_path_between(e, p2, s[q], target));
                }
                assert(is_path_between(e, path@, start, target));
            }
            display.selected_nodes = selection;
        },
        None => {
            proof {
                assert forall|m: u128, p: Seq<u128>| s.contains(m) implies !#[trigger] is_path_between(e, p, m, target) by {
                    let q = choose|q: int| 0 <= q < s.len() && s[q] == m;
                    assert(!is_path_between(e, p, s[q], target));
                }
            }
            if !keep_others {
                display.selected_nodes = Vec::new();
            }
        },
    }
}

/// Selects every node of the selected graph; with `toggle`, the nodes that
/// were selected are left out instead.
pub fn select_all(display: &mut GraphDisplayer, toggle: bool)
    requires
        old(display).wf(),
    ensures
        final(display).wf(),
        final(display).graphs@ == old(display).graphs@,
        final(display).selected_graph == old(display).selected_graph,
        final(display).temporary == old(display).temporary,
        forall|v: u128| #[trigger] final(display).selected_nodes@.contains(v) <==> old(display).current().nodes.contains_key(v)
            && !(toggle && old(display).selected_nodes@.contains(v)),
{
    let graph = &display.graphs[display.selected_graph];
    let ghost gn = graph.nodes@;
    let mut selection: Vec<u128> = Vec::new();
    let mut k: usize = 0;
    while k < graph.nodes.len()
        invariant
            graph.wf(),
            gn == graph.nodes@,
            k <= gn.len(),
            distinct(selection@),
            forall|v: u128| #[trigger] selection@.contains(v) <==> has_key_at(gn.take(k as int), v) && !(toggle && display.selected_nodes@.contains(v)),
        decreases gn.len() - k,
    {
        let id = graph.nodes[k].0;
        if !(toggle && crate::oriented::contains_id(&display.selected_nodes, id)) {
            add_to_selection(&mut selection, id);
        }
        proof {
            lemma_take_has_key(gn, k as int);
        }
        k = k + 1;
    }
    proof {
        assert(gn.take(gn.len() as int) =~= gn);
        assert forall|v: u128| #[trigger] selection@.contains(v) <==> display.current().nodes.contains_key(v)
            && !(toggle && display.selected_nodes@.contains(v)) by {
            lemma_entries_dom(gn, v);
        }
    }
    display.selected_nodes = selection;
}

/// Removes `x` from `sel`.
fn drop_from_selection(sel: &mut Vec<u128>, x: u128)
    requires
        distinct(old(sel)@),
    ensures
        distinct(final(sel)@),
        forall|v: u128| #[trigger] final(sel)@.contains(v) <==> old(sel)@.contains(v) && v != x,
{
    let mut kept: Vec<u128> = Vec::new();
    let mut k: usize = 0;
    while k < sel.len()
        invariant
            sel@ == old(sel)@,
            distinct(sel@),
            k <= sel.len(),
            distinct(kept@),
            forall|v: u128| #[trigger] kept@.contains(v) <==> sel@.take(k as int).contains(v) && v != x,
        decreases sel.len() - k,
    {
        let v = sel[k];
        proof {
            lemma_take_contains(sel@, k as int);
        }
        if v != x {
            add_to_selection(&mut kept, v);
        }
        k = k + 1;
    }
    assert(sel@.take(sel.len() as int) =~= sel@);
    *sel = kept;
}

/// A click on node `id`: with `additive`, `id` joins the selection or leaves
/// it; otherwise `id` becomes the whole selection, except that clicking the
/// only selected node clears the selection.
pub fn click_node(display: &mut GraphDisplayer, id: u128, additive: bool)
    requires
        old(display).wf(),
    ensures
        final(display).wf(),
        final(display).graphs@ == old(display).graphs@,
        final(display).selected_graph == old(display).selected_graph,
        final(display).temporary == old(display).temporary,
        ({
            let s = old(display).selected_nodes@;
            let t = final(display).selected_nodes@;
            if additive {
                forall|v: u128| #[trigger] t.contains(v) <==> (s.contains(v) != (v == id))
            } else if s.contains(id) && s.len() == 1 {
                t.len() == 0
            } else {
                t == seq![id]
            }
        }),
{
    let was_selected = crate::oriented::contains_id(&display.selected_nodes, id);
    if additive {
        if was_selected {
            drop_from_selection(&mut display.selected_nodes, id);
        } else {
            add_to_selection(&mut display.selected_nodes, id);
        }
    } else {
        let alone = was_selected && display.selected_nodes.len() == 1;
        let mut sel: Vec<u128> = Vec::new();
        if !alone {
            sel.push(id);
        }
        display.selected_nodes = sel;
    }
}

/// The end of a drag-rectangle selection over the nodes `inside` it: each of
/// them joins the selection, or with `toggle` leaves it if it was selected.
pub fn select_nodes(display: &mut GraphDisplayer, inside: &Vec<u128>, toggle: bool)
    requires
        old(display).wf(),
        distinct(inside@),
    ensures
        final(display).wf(),
        final(display).graphs@ == old(display).graphs@,
        final(display).selected_graph == old(display).selected_graph,
        final(display).temporary == old(display).temporary,
        forall|v: u128| #[trigger] final(display).selected_nodes@.contains(v) <==> if inside@.contains(v) {
            !(toggle && old(display).selected_nodes@.contains(v))
        } else {
            old(display).selected_nodes@.contains(v)
        },
{
    let ghost s = display.selected_nodes@;
    let mut k: usize = 0;
    while k < inside.len()
        invariant
            display.wf(),
            display.graphs@ == old(display).graphs@,
            display.selected_graph == old(display).selected_graph,
            display.temporary == old(display).temporary,
            s == old(display).selected_nodes@,
            distinct(inside@),
            k <= inside.len(),
            forall|v: u128| #[trigger] display.selected_nodes@.contains(v) <==> if inside@.take(k as int).contains(v) {
                !(toggle && s.contains(v))
            } else {
                s.contains(v)
            },
        decreases inside.len() - k,
    {
        let id = inside[k];
        proof {
            lemma_take_contains(inside@, k as int);
            assert(!inside@.take(k as int).contains(id)) by {
                if inside@.take(k as int).contains(id) {
                    let q = choose|q: int| 0 <= q < k && #[trigger] inside@.take(k as int)[q] == id;
                    assert(inside@[q] == inside@[k as int]);
                }
            }
        }
        if toggle && crate::oriented::contains_id(&display.selected_nodes, id) {
            drop_from_selection(&mut display.selected_nodes, id);
        } else {
            add_to_selection(&mut display.selected_nodes, id);
        }
        k = k + 1;
    }
    assert(inside@.take(inside.len() as int) =~= inside@);
}

} // verus!
