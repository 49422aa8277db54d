use vstd::prelude::*;

use crate::node::Node;
use crate::oriented::GraphView;

verus! {

/// One mutation of a graph, as its effect on the abstract state: an insert
/// (with the identifier it handed out), a remove, or a link.
pub enum GraphOp<W> {
    Insert(u128, Node),
    Remove(u128),
    Link(u128, u128, W),
}

impl<W> GraphOp<W> {
    /// The operation links exactly the edge `e`.
    pub open spec fn creates(self, e: (u128, u128)) -> bool {
        match self {
            GraphOp::Link(a, b, _) => (a, b) == e,
            _ => false,
        }
    }
}

impl<W> GraphView<W> {
    /// The state after `op`, as `insert`, `remove` and `link` leave it.
    pub open spec fn apply(self, op: GraphOp<W>) -> GraphView<W> {
        match op {
            GraphOp::Insert(id, n) => GraphView { nodes: self.nodes.insert(id, n), edges: self.edges, last_id: id },
            GraphOp::Remove(id) => self.removing(id),
            GraphOp::Link(a, b, w) => self.linking(a, b, w),
        }
    }

    /// The state after the operations of `ops`, in order.
    pub open spec fn run(self, ops: Seq<GraphOp<W>>) -> GraphView<W>
        decreases ops.len(),
    {
        if ops.len() == 0 {
            self
        } else {
            self.run(ops.drop_last()).apply(ops.last())
        }
    }

    /// The state after removing each identifier of `ids`, in order.
    pub open spec fn removing_all(self, ids: Seq<u128>) -> GraphView<W>
        decreases ids.len(),
    {
        if ids.len() == 0 {
            self
        } else {
            self.removing_all(ids.drop_last()).removing(ids.last())
        }
    }
}

/// The identifiers that a run of inserts hands out are pairwise distinct,
/// whatever happens between them (clearing the graph included), provided
/// each insert's identifier lies above the state it met and nothing between
/// two inserts lowers `last_id`; `insert`, `clear`, `remove` and `link` all
/// behave so.
pub proof fn lemma_inserted_ids_distinct<W>(states: Seq<GraphView<W>>, ids: Seq<u128>)
    requires
        states.len() == ids.len() + 1,
        forall|k: int|
            0 <= k < ids.len() ==> (#[trigger] states[k]).last_id < ids[k] && ids[k] <= states[k
                + 1].last_id,
    ensures
        forall|a: int, b: int| 0 <= a < b < ids.len() ==> ids[a] < ids[b],
        forall|a: int, b: int| 0 <= a < ids.len() && 0 <= b < ids.len() && a != b ==> ids[a] != ids[b],
{
    assert forall|a: int, b: int| 0 <= a < b < ids.len() implies ids[a] < ids[b] by {
        lemma_last_id_grows(states, ids, a + 1, b);
        assert(states[a].last_id < ids[a]);
    }
}

proof fn lemma_last_id_grows<W>(states: Seq<GraphView<W>>, ids: Seq<u128>, a: int, b: int)
    requires
        states.len() == ids.len() + 1,
        forall|k: int|
            0 <= k < ids.len() ==> (#[trigger] states[k]).last_id < ids[k] && ids[k] <= states[k
                + 1].last_id,
        0 <= a <= b < states.len(),
    ensures
        ids[a - 1] <= states[b].last_id || a == 0,
        states[a].last_id <= states[b].last_id,
    decreases b - a,
{
    if a < b {
        lemma_last_id_grows(states, ids, a + 1, b);
        assert(states[a].last_id < ids[a]);
    }
    if a > 0 {
        assert(states[a - 1].last_id < ids[a - 1]);
    }
}

/// Once node `x` is removed, no edge at `x` is present again unless a later
/// `link` creates that very edge: inserts add no edges and removes only
/// drop them.
pub proof fn lemma_removed_edges_stay_gone<W>(
    g: GraphView<W>,
    ops: Seq<GraphOp<W>>,
    i: int,
    e: (u128, u128),
)
    requires
        0 <= i < ops.len(),
        ops[i] matches GraphOp::Remove(x) && GraphView::<W>::touches(e, x),
        forall|j: int| i < j < ops.len() ==> !(#[trigger] ops[j]).creates(e),
    ensures
        !g.run(ops).edges.contains_key(e),
    decreases ops.len(),
{
    let pre = ops.drop_last();
    if i < ops.len() - 1 {
        assert forall|j: int| i < j < pre.len() implies !(#[trigger] pre[j]).creates(e) by {
            assert(pre[j] == ops[j]);
        }
        lemma_removed_edges_stay_gone(g, pre, i, e);
        assert(!ops[ops.len() - 1].creates(e));
    }
}

/// Removing, one by one, every node of a graph whose edges all start at
/// those nodes leaves neither nodes nor edges.
pub proof fn lemma_remove_all_empties<W>(g: GraphView<W>, ids: Seq<u128>)
    requires
        forall|id: u128| #[trigger] g.nodes.contains_key(id) ==> ids.contains(id),
        forall|e: (u128, u128)| #[trigger] g.edges.contains_key(e) ==> ids.contains(e.0),
    ensures
        g.removing_all(ids).nodes.dom() == Set::<u128>::empty(),
        g.removing_all(ids).edges.dom() == Set::<(u128, u128)>::empty(),
{
    lemma_removing_all_drops(g, ids);
    assert(g.removing_all(ids).nodes.dom() =~= Set::<u128>::empty());
    assert(g.removing_all(ids).edges.dom() =~= Set::<(u128, u128)>::empty());
}

proof fn lemma_removing_all_drops<W>(g: GraphView<W>, ids: Seq<u128>)
    ensures
        forall|id: u128| #[trigger] g.removing_all(ids).nodes.contains_key(id) ==> g.nodes.contains_key(id) && !ids.contains(id),
        forall|e: (u128, u128)| #[trigger] g.removing_all(ids).edges.contains_key(e) ==> g.edges.contains_key(e) && !ids.contains(e.0),
    decreases ids.len(),
{
    if ids.len() > 0 {
        let pre = ids.drop_last();
        lemma_removing_all_drops(g, pre);
        assert forall|id: u128| #[trigger] g.removing_all(ids).nodes.contains_key(id) implies g.nodes.contains_key(id) && !ids.contains(id) by {
            assert(g.removing_all(pre).nodes.contains_key(id));
            if ids.contains(id) {
                let k = choose|k: int| 0 <= k < ids.len() && ids[k] == id;
                if k < pre.len() {
                    assert(pre[k] == id);
                }
            }
        }
        assert forall|e: (u128, u128)| #[trigger] g.removing_all(ids).edges.contains_key(e) implies g.edges.contains_key(e) && !ids.contains(e.0) by {
            assert(g.removing_all(pre).edges.contains_key(e));
            if ids.contains(e.0) {
                let k = choose|k: int| 0 <= k < ids.len() && ids[k] == e.0;
                if k < pre.len() {
                    assert(pre[k] == e.0);
                }
            }
        }
    }
}

/// A node survives removing `ids` exactly when it is not listed, and keeps
/// its data.
pub proof fn lemma_removing_all_node<W>(g: GraphView<W>, ids: Seq<u128>, id: u128)
    ensures
        g.removing_all(ids).nodes.contains_key(id) <==> g.nodes.contains_key(id) && !ids.contains(id),
        g.removing_all(ids).nodes.contains_key(id) ==> g.removing_all(ids).nodes[id] == g.nodes[id],
    decreases ids.len(),
{
    if ids.len() > 0 {
        let pre = ids.drop_last();
        lemma_removing_all_node(g, pre, id);
        if ids.contains(id) && id != ids.last() {
            let k = choose|k: int| 0 <= k < ids.len() && ids[k] == id;
            assert(pre[k] == id);
        }
        if pre.contains(id) {
            let k = choose|k: int| 0 <= k < pre.len() && pre[k] == id;
            assert(ids[k] == id);
        }
        if id == ids.last() {
            assert(ids[ids.len() - 1] == id);
        }
    }
}

} // verus!
